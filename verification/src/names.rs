//! Which directory entries belong to a rotation family, and the destination
//! name each member moves to.
//!
//! A rotated file is named `prefix.N.ext`: exactly three `.`-separated
//! components, a non-empty `prefix` that the target file name starts with,
//! and a generation `N` that parses as an unsigned integer.  The active file
//! is the entry whose name equals the target file name; it moves to
//! generation 1, and a file at generation `N` moves to generation `N + 1`.

use vstd::prelude::*;

use crate::text::{
    all_digits, dec_rep, digits_val, find_first, find_last, first_index_of, is_digit,
    last_index_of, lemma_dec_rep_digits, lemma_dec_rep_val, lemma_first_index_of,
    lemma_last_index_of, parse_usize, parses_as_usize, str_starts_with, to_decimal,
};

verus! {

/// The parts of a rotated file name `prefix.N.ext`.
pub ghost struct RotatedParts {
    pub prefix: Seq<char>,
    pub generation: nat,
    pub ext: Seq<char>,
}

/// Parses `entry` as a rotated member of `target`'s family: exactly two dots,
/// a non-empty prefix that `target` starts with, and a middle component that
/// parses as an unsigned integer.
pub open spec fn spec_rotated_parts(entry: Seq<char>, target: Seq<char>) -> Option<RotatedParts> {
    let i = first_index_of(entry, '.');
    let j = last_index_of(entry, '.');
    if i >= 1 && i < j && (forall|k: int| i < k < j ==> entry[k] != '.')
        && entry.take(i).is_prefix_of(target) && parses_as_usize(entry.subrange(i + 1, j)) {
        Some(
            RotatedParts {
                prefix: entry.take(i),
                generation: digits_val(entry.subrange(i + 1, j)),
                ext: entry.skip(j + 1),
            },
        )
    } else {
        None
    }
}

/// The name `prefix.N.ext` of the generation a rotated member moves to.
pub open spec fn spec_next_name(p: RotatedParts) -> Seq<char> {
    p.prefix + seq!['.'] + dec_rep(p.generation + 1) + seq!['.'] + p.ext
}

/// The generation-1 name the active file moves to: `.1` is inserted before
/// the target name's last extension component, or appended when the name has
/// no `.` at all.
pub open spec fn spec_active_destination(target: Seq<char>) -> Seq<char> {
    let j = last_index_of(target, '.');
    if j >= 0 {
        target.take(j) + seq!['.'] + dec_rep(1) + seq!['.'] + target.skip(j + 1)
    } else {
        target + seq!['.'] + dec_rep(1)
    }
}

/// Classifies one directory entry against the target file name: the active
/// file moves to generation 1, a rotated member at generation `N` moves to
/// `N + 1`, and any other entry is no part of the family.  A generation whose
/// successor does not fit in a `usize` is left alone (a machine limit).
pub open spec fn spec_classify(entry: Seq<char>, target: Seq<char>) -> Option<Seq<char>> {
    if entry == target {
        Some(spec_active_destination(target))
    } else {
        match spec_rotated_parts(entry, target) {
            Some(p) => if p.generation < usize::MAX as nat {
                Some(spec_next_name(p))
            } else {
                None
            },
            None => None,
        }
    }
}

/// A name of the plain form `stem.ext`: exactly one dot, and not as the
/// first character.
pub open spec fn single_dot_name(n: Seq<char>) -> bool {
    last_index_of(n, '.') >= 1 && first_index_of(n, '.') == last_index_of(n, '.')
}

/// A name assembled as `prefix.N.ext` from dot-free parts parses back into
/// exactly those parts.
pub proof fn lemma_rotated_name_parts(
    prefix: Seq<char>,
    num: Seq<char>,
    ext: Seq<char>,
    target: Seq<char>,
)
    requires
        prefix.len() >= 1,
        forall|k: int| 0 <= k < prefix.len() ==> prefix[k] != '.',
        num.len() >= 1,
        all_digits(num),
        digits_val(num) <= usize::MAX as nat,
        forall|k: int| 0 <= k < ext.len() ==> ext[k] != '.',
        prefix.is_prefix_of(target),
    ensures
        spec_rotated_parts(prefix + seq!['.'] + num + seq!['.'] + ext, target) == Some(
            RotatedParts { prefix, generation: digits_val(num), ext },
        ),
{
    let d = prefix + seq!['.'] + num + seq!['.'] + ext;
    let p = prefix.len() as int;
    let l = num.len() as int;
    assert(d.len() == p + 1 + l + 1 + ext.len());
    assert(d[p] == '.');
    assert(d[p + 1 + l] == '.');
    assert forall|k: int| 0 <= k < d.len() && #[trigger] d[k] == '.' implies k == p || k == p + 1
        + l by {
        if k < p {
            assert(d[k] == prefix[k]);
        } else if p < k < p + 1 + l {
            assert(d[k] == num[k - p - 1]);
            assert(is_digit(num[k - p - 1]));
            assert(num[k - p - 1] as u32 >= 48);
        } else if k > p + 1 + l {
            assert(d[k] == ext[k - p - l - 2]);
        }
    }
    lemma_first_index_of(d, '.');
    lemma_last_index_of(d, '.');
    let f = first_index_of(d, '.');
    let j = last_index_of(d, '.');
    assert(f == p) by {
        if f == -1 {
            assert(d[p] != '.');
        } else if f < p {
            assert(f == p || f == p + 1 + l);
        } else if f > p {
            assert(d[p] != '.');
        }
    }
    assert(j == p + 1 + l) by {
        if j == -1 {
            assert(d[p] != '.');
        } else if j < p + 1 + l {
            assert(d[p + 1 + l] != '.');
        } else if j > p + 1 + l {
            assert(j == p || j == p + 1 + l);
        }
    }
    assert(d.take(p) =~= prefix);
    assert(d.subrange(p + 1, p + 1 + l) =~= num);
    assert(d.skip(p + 1 + l + 1) =~= ext);
    assert(forall|k: int| f < k < j ==> d[k] != '.');
    assert(d.take(f).is_prefix_of(target));
    assert(parses_as_usize(d.subrange(f + 1, j)));
}

/// Round-trip naming: every destination name the classification produces is
/// itself parseable back into `(prefix, generation, ext)` by the same rule,
/// against the same target, with a generation of at least 1.  For the active
/// file this asks the target name to be of the plain `stem.ext` form; a
/// target with a dotted stem (or none at all) produces a destination with
/// more (or fewer) than three components.
pub proof fn lemma_destination_round_trip(entry: Seq<char>, target: Seq<char>)
    requires
        spec_classify(entry, target) is Some,
        entry == target ==> single_dot_name(target),
    ensures
        spec_rotated_parts(spec_classify(entry, target).unwrap(), target) is Some,
        spec_rotated_parts(spec_classify(entry, target).unwrap(), target).unwrap().generation
            >= 1,
{
    lemma_dec_rep_digits(1);
    lemma_dec_rep_val(1);
    lemma_first_index_of(target, '.');
    lemma_last_index_of(target, '.');
    if entry == target {
        let j = last_index_of(target, '.');
        assert(forall|k: int| 0 <= k < j ==> target[k] != '.');
        assert(forall|k: int| j < k < target.len() ==> target[k] != '.');
        assert(target.take(j).is_prefix_of(target)) by {
            assert(target.take(j) =~= target.subrange(0, j));
        }
        lemma_rotated_name_parts(target.take(j), dec_rep(1), target.skip(j + 1), target);
    } else {
        let parts = spec_rotated_parts(entry, target).unwrap();
        lemma_first_index_of(entry, '.');
        lemma_last_index_of(entry, '.');
        let i = first_index_of(entry, '.');
        let j = last_index_of(entry, '.');
        lemma_dec_rep_digits(parts.generation + 1);
        lemma_dec_rep_val(parts.generation + 1);
        assert(forall|k: int| 0 <= k < i ==> entry[k] != '.');
        assert forall|k: int| 0 <= k < entry.take(i).len() implies #[trigger] entry.take(i)[k]
            != '.' by {
            assert(entry.take(i)[k] == entry[k]);
        }
        assert forall|k: int| 0 <= k < entry.skip(j + 1).len() implies #[trigger] entry.skip(
            j + 1,
        )[k] != '.' by {
            assert(entry.skip(j + 1)[k] == entry[k + j + 1]);
        }
        lemma_rotated_name_parts(
            entry.take(i),
            dec_rep(parts.generation + 1),
            entry.skip(j + 1),
            target,
        );
    }
}

/// Builds the destination name of the active file.
pub fn active_destination(target: &String) -> (r: String)
    ensures
        r@ == spec_active_destination(target@),
{
    proof {
        reveal_strlit(".1.");
        reveal_strlit(".1");
    }
    let len = target.as_str().unicode_len();
    match find_last(target.as_str(), '.') {
        Some(j) => {
            proof {
                lemma_last_index_of(target@, '.');
            }
            let stem = target.as_str().substring_char(0, j);
            let ext = target.as_str().substring_char(j + 1, len);
            let r = String::from_str(stem);
            let r = r.concat(".1.");
            let r = r.concat(ext);
            proof {
                assert(".1."@ =~= seq!['.'] + dec_rep(1) + seq!['.']);
                assert(r@ =~= target@.take(j as int) + seq!['.'] + dec_rep(1) + seq!['.']
                    + target@.skip(j as int + 1));
            }
            r
        },
        None => {
            let r = target.clone();
            let r = r.concat(".1");
            proof {
                assert(".1"@ =~= seq!['.'] + dec_rep(1));
                assert(r@ =~= target@ + seq!['.'] + dec_rep(1));
            }
            r
        },
    }
}

/// Classifies one directory entry, returning the destination name of a
/// family member.
pub fn classify(entry: &String, target: &String) -> (r: Option<String>)
    ensures
        match r {
            Some(d) => spec_classify(entry@, target@) == Some(d@),
            None => spec_classify(entry@, target@) is None,
        },
{
    if *entry == *target {
        return Some(active_destination(target));
    }
    let len = entry.as_str().unicode_len();
    let i = match find_first(entry.as_str(), '.') {
        Some(i) => i,
        None => {
            return None;
        },
    };
    let j = match find_last(entry.as_str(), '.') {
        Some(j) => j,
        None => {
            return None;
        },
    };
    proof {
        lemma_first_index_of(entry@, '.');
        lemma_last_index_of(entry@, '.');
    }
    if i < 1 || i >= j {
        return None;
    }
    let mut k = i + 1;
    while k < j
        invariant
            i < k <= j,
            j < entry@.len() == len,
            1 <= i,
            entry@ != target@,
            first_index_of(entry@, '.') == i as int,
            last_index_of(entry@, '.') == j as int,
            forall|t: int| i < t < k ==> entry@[t] != '.',
        decreases j - k,
    {
        if entry.as_str().get_char(k) == '.' {
            return None;
        }
        k += 1;
    }
    let prefix = entry.as_str().substring_char(0, i);
    if !str_starts_with(target.as_str(), prefix) {
        return None;
    }
    let mid = entry.as_str().substring_char(i + 1, j);
    let n = match parse_usize(mid) {
        Some(n) => n,
        None => {
            return None;
        },
    };
    if n == usize::MAX {
        return None;
    }
    let ext = entry.as_str().substring_char(j + 1, len);
    let num = to_decimal(n + 1);
    proof {
        reveal_strlit(".");
    }
    let r = String::from_str(prefix);
    let r = r.concat(".");
    let r = r.concat(num.as_str());
    let r = r.concat(".");
    let r = r.concat(ext);
    proof {
        assert("."@ =~= seq!['.']);
        let p = spec_rotated_parts(entry@, target@).unwrap();
        assert(r@ =~= spec_next_name(p));
    }
    Some(r)
}

} // verus!
