//! Destination naming conflict resolution (`model_2.safetensors`, ...).

use vstd::prelude::*;
use crate::text::{chars_eq, chars_of, extend_chars, string_of};
use crate::utils::human_size::{decimal, decimal_chars, lemma_decimal_injective, lemma_decimal_value, is_digit};
use crate::utils::path_utils::{
    extension_of_name, file_name, file_name_of, is_rooted, join, join_path, normalize_chars,
    normalized, parent, parent_of, split_extension, stem_of_name,
    verbatim_prefix,
};
use crate::text::starts_with_seq;

verus! {

/// The stem used for numbered names: the file stem, or `file` when the path
/// has no file name.
pub open spec fn stem_or_file(d: Seq<char>) -> Seq<char> {
    match file_name_of(d) {
        Some(n) => stem_of_name(n),
        None => "file"@,
    }
}

/// The extension used for numbered names (empty when there is none).
pub open spec fn ext_or_empty(d: Seq<char>) -> Seq<char> {
    match file_name_of(d) {
        Some(n) => match extension_of_name(n) {
            Some(e) => e,
            None => Seq::empty(),
        },
        None => Seq::empty(),
    }
}

/// The parent used for numbered names (empty when there is none).
pub open spec fn parent_or_empty(d: Seq<char>) -> Seq<char> {
    match parent_of(d) {
        Some(p) => p,
        None => Seq::empty(),
    }
}

/// `stem_N.ext` (or `stem_N` without an extension).
pub open spec fn numbered_name(stem: Seq<char>, n: nat, ext: Seq<char>) -> Seq<char> {
    if ext.len() == 0 {
        stem + seq!['_'] + decimal(n)
    } else {
        stem + seq!['_'] + decimal(n) + seq!['.'] + ext
    }
}

/// The destination `d` renamed to carry the number `n`, in the same folder,
/// normalized.
pub open spec fn numbered_destination(d: Seq<char>, n: nat) -> Seq<char> {
    normalized(join_path(parent_or_empty(d), numbered_name(stem_or_file(d), n, ext_or_empty(d))))
}

/// Whether a sequence of path strings contains `p`.
pub open spec fn seq_has(existing: Seq<String>, p: Seq<char>) -> bool {
    exists|i: int| 0 <= i < existing.len() && #[trigger] existing[i]@ == p
}

proof fn lemma_map_concat(a: Seq<char>, b: Seq<char>)
    ensures
        (a + b).map_values(|c: char| if c == '\\' { '/' } else { c }) == a.map_values(
            |c: char| if c == '\\' { '/' } else { c },
        ) + b.map_values(|c: char| if c == '\\' { '/' } else { c }),
{
    assert((a + b).map_values(|c: char| if c == '\\' { '/' } else { c }) =~= a.map_values(
        |c: char| if c == '\\' { '/' } else { c },
    ) + b.map_values(|c: char| if c == '\\' { '/' } else { c }));
}

/// `numbered_destination(d, n)` is a fixed prefix, the decimal digits of `n`
/// and a fixed suffix.
proof fn lemma_numbered_shape(d: Seq<char>, n: nat) -> (r: (Seq<char>, Seq<char>))
    ensures
        numbered_destination(d, n) == r.0 + decimal(n) + r.1,
        forall|m: nat| numbered_destination(d, m) == r.0 + decimal(m) + r.1,
{
    let p = parent_or_empty(d);
    let s = stem_or_file(d);
    let e = ext_or_empty(d);
    let t = if e.len() == 0 {
        Seq::<char>::empty()
    } else {
        seq!['.'] + e
    };
    let first = if s.len() > 0 {
        s[0]
    } else {
        '_'
    };
    let rooted = first == '/';
    let y = if rooted {
        Seq::<char>::empty()
    } else if p.len() == 0 || p.last() == '/' {
        p
    } else {
        p + seq!['/']
    };
    let w = y + s + seq!['_'];
    let pre = verbatim_prefix();
    let sw = starts_with_seq(w, pre);
    let w2 = if sw {
        w.subrange(4, w.len() as int)
    } else {
        w
    };
    let a = w2.map_values(|c: char| if c == '\\' { '/' } else { c });
    let b = t.map_values(|c: char| if c == '\\' { '/' } else { c });
    assert forall|m: nat| numbered_destination(d, m) == a + decimal(m) + b by {
        lemma_decimal_value(m);
        let dm = decimal(m);
        let nm = numbered_name(s, m, e);
        assert(nm =~= s + seq!['_'] + dm + t);
        assert(nm.len() > 0 && nm[0] == first);
        assert(is_rooted(nm) == rooted);
        let j = join_path(p, nm);
        assert(j =~= w + dm + t);
        assert(starts_with_seq(j, pre) == sw) by {
            if w.len() >= 4 {
                assert(j.subrange(0, 4) =~= w.subrange(0, 4));
            } else {
                assert(w[w.len() - 1] == '_');
                assert(pre[w.len() - 1] != '_');
                if j.len() >= 4 {
                    assert(j.subrange(0, 4)[w.len() - 1] == '_');
                }
            }
        }
        let jt = if sw {
            j.subrange(4, j.len() as int)
        } else {
            j
        };
        assert(jt =~= w2 + dm + t);
        lemma_map_concat(w2 + dm, t);
        lemma_map_concat(w2, dm);
        assert(dm.map_values(|c: char| if c == '\\' { '/' } else { c }) =~= dm) by {
            assert forall|i: int| 0 <= i < dm.len() implies #[trigger] dm[i] != '\\' by {
                assert(is_digit(dm[i]));
            }
        }
    }
    (a, b)
}

/// Different numbers give different numbered destinations.
pub proof fn lemma_numbered_destination_injective(d: Seq<char>, n: nat, m: nat)
    requires
        numbered_destination(d, n) == numbered_destination(d, m),
    ensures
        n == m,
{
    let (a, b) = lemma_numbered_shape(d, n);
    let x = a + decimal(n) + b;
    let y = a + decimal(m) + b;
    assert(x.len() == y.len());
    assert(decimal(n).len() == decimal(m).len());
    assert(decimal(n) =~= x.subrange(a.len() as int, (a.len() + decimal(n).len()) as int));
    assert(decimal(m) =~= y.subrange(a.len() as int, (a.len() + decimal(m).len()) as int));
    lemma_decimal_injective(n, m);
}

/// The destination `d` renamed to carry the number `n`.
pub fn numbered_destination_chars(d: &[char], n: u128) -> (r: Vec<char>)
    ensures
        r@ == numbered_destination(d@, n as nat),
{
    let (stem, ext) = match file_name(d) {
        Some(name) => {
            let (st, e) = split_extension(name.as_slice());
            let ev = match e {
                Some(x) => x,
                None => Vec::new(),
            };
            (st, ev)
        },
        None => (chars_of("file"), Vec::new()),
    };
    let par = match parent(d) {
        Some(p) => p,
        None => Vec::new(),
    };
    let mut name = stem;
    name.push('_');
    let digits = decimal_chars(n);
    extend_chars(&mut name, digits.as_slice());
    if ext.len() > 0 {
        name.push('.');
        extend_chars(&mut name, ext.as_slice());
    }
    assert(name@ =~= numbered_name(stem_or_file(d@), n as nat, ext_or_empty(d@)));
    let joined = join(par.as_slice(), name.as_slice());
    normalize_chars(joined.as_slice())
}

/// Whether `n` is the smallest number from 2 whose numbered destination is
/// not in `taken`.
pub open spec fn first_free_number(d: Seq<char>, taken: Seq<Seq<char>>, n: nat) -> bool {
    &&& n >= 2
    &&& !taken.contains(numbered_destination(d, n))
    &&& forall|m: nat| 2 <= m < n ==> taken.contains(#[trigger] numbered_destination(d, m))
}

/// The destination `d` where it is not taken, else `d` numbered with the
/// smallest free number from 2.
pub open spec fn free_destination(d: Seq<char>, taken: Seq<Seq<char>>) -> Seq<char> {
    if !taken.contains(d) {
        d
    } else {
        numbered_destination(d, choose|n: nat| first_free_number(d, taken, n))
    }
}

/// At most one number is the first free one.
pub proof fn lemma_first_free_unique(d: Seq<char>, taken: Seq<Seq<char>>, a: nat, b: nat)
    requires
        first_free_number(d, taken, a),
        first_free_number(d, taken, b),
    ensures
        a == b,
{
    if a < b {
        assert(taken.contains(numbered_destination(d, a)));
    } else if b < a {
        assert(taken.contains(numbered_destination(d, b)));
    }
}

/// A list of strings holds `p` exactly when its view does.
pub proof fn lemma_seq_has_view(existing: Seq<String>, p: Seq<char>)
    ensures
        seq_has(existing, p) == existing.map_values(|s: String| s@).contains(p),
{
    let ev = existing.map_values(|s: String| s@);
    if seq_has(existing, p) {
        let i = choose|i: int| 0 <= i < existing.len() && #[trigger] existing[i]@ == p;
        assert(ev[i] == p);
    }
    if ev.contains(p) {
        let i = choose|i: int| 0 <= i < ev.len() && ev[i] == p;
        assert(existing[i]@ == p);
    }
}

/// Whether the list of path strings contains `p`.
pub fn list_contains(existing: &[String], p: &[char]) -> (r: bool)
    ensures
        r == seq_has(existing@, p@),
{
    let mut i: usize = 0;
    while i < existing.len()
        invariant
            i <= existing@.len(),
            forall|j: int| 0 <= j < i ==> #[trigger] existing@[j]@ != p@,
        decreases existing@.len() - i,
    {
        let e = chars_of(existing[i].as_str());
        if chars_eq(e.as_slice(), p) {
            return true;
        }
        i = i + 1;
    }
    false
}

/// A destination path that does not collide with `existing_destinations`:
/// the normalized path itself if it is free, else the path renamed with the
/// smallest suffix number `_2`, `_3`, ... that is free.
pub fn generate_unique_destination(dest_path: &str, existing_destinations: &[String]) -> (r: String)
    ensures
        !seq_has(existing_destinations@, r@),
        !seq_has(existing_destinations@, normalized(dest_path@)) ==> r@ == normalized(dest_path@),
        seq_has(existing_destinations@, normalized(dest_path@)) ==> exists|n: nat|
            n >= 2 && r@ == numbered_destination(normalized(dest_path@), n) && !seq_has(
                existing_destinations@,
                r@,
            ) && forall|m: nat|
                2 <= m < n ==> seq_has(
                    existing_destinations@,
                    #[trigger] numbered_destination(normalized(dest_path@), m),
                ),
        r@ == free_destination(normalized(dest_path@), existing_destinations@.map_values(|s: String| s@)),
{
    let original = normalize_chars(chars_of(dest_path).as_slice());
    if !list_contains(existing_destinations, original.as_slice()) {
        proof {
            lemma_seq_has_view(existing_destinations@, original@);
        }
        return string_of(original.as_slice());
    }
    proof {
        lemma_seq_has_view(existing_destinations@, original@);
    }
    let ghost d = original@;
    let ghost ev = existing_destinations@.map_values(|s: String| s@);
    let mut counter: u128 = 2;
    let mut candidate = numbered_destination_chars(original.as_slice(), counter);
    let ghost mut taken: Seq<Seq<char>> = Seq::empty();
    while list_contains(existing_destinations, candidate.as_slice())
        invariant
            d == original@,
            ev == existing_destinations@.map_values(|s: String| s@),
            2 <= counter,
            candidate@ == numbered_destination(d, counter as nat),
            taken.len() == counter - 2,
            taken.no_duplicates(),
            forall|k: int| 0 <= k < taken.len() ==> #[trigger] taken[k] == numbered_destination(d, (k + 2) as nat),
            forall|k: int| 0 <= k < taken.len() ==> ev.contains(#[trigger] taken[k]),
            counter <= existing_destinations@.len() + 2,
            forall|m: nat| 2 <= m < counter ==> seq_has(existing_destinations@, #[trigger] numbered_destination(d, m)),
        decreases existing_destinations@.len() + 2 - counter,
    {
        let ghost prev = taken;
        proof {
            let c = numbered_destination(d, counter as nat);
            let j = choose|j: int| 0 <= j < existing_destinations@.len() && #[trigger] existing_destinations@[j]@ == c;
            assert(ev[j] == c);
            taken = taken.push(c);
            assert forall|a: int, b: int| 0 <= a < b < taken.len() implies taken[a] != taken[b] by {
                if taken[a] == taken[b] {
                    lemma_numbered_destination_injective(d, (a + 2) as nat, (b + 2) as nat);
                }
            }
            assert(taken.to_set().subset_of(ev.to_set())) by {
                assert forall|x: Seq<char>| taken.to_set().contains(x) implies ev.to_set().contains(x) by {
                    let k = choose|k: int| 0 <= k < taken.len() && taken[k] == x;
                    if k < prev.len() {
                        assert(ev.contains(prev[k]));
                    } else {
                        assert(ev[j] == x);
                    }
                }
            }
            taken.unique_seq_to_set();
            ev.lemma_cardinality_of_set();
            vstd::set_lib::lemma_len_subset(taken.to_set(), ev.to_set());
            assert forall|m: nat| 2 <= m < counter + 1 implies seq_has(existing_destinations@, #[trigger] numbered_destination(d, m)) by {
                if m == counter {
                    assert(existing_destinations@[j]@ == numbered_destination(d, m));
                }
            }
        }
        assert(taken.len() <= ev.len());
        assert(existing_destinations@.len() == existing_destinations.len());
        counter = counter + 1;
        candidate = numbered_destination_chars(original.as_slice(), counter);
    }
    proof {
        let n = counter as nat;
        lemma_seq_has_view(existing_destinations@, candidate@);
        assert forall|m: nat| 2 <= m < n implies ev.contains(#[trigger] numbered_destination(d, m)) by {
            assert(seq_has(existing_destinations@, numbered_destination(d, m)));
            lemma_seq_has_view(existing_destinations@, numbered_destination(d, m));
        }
        assert(first_free_number(d, ev, n));
        let c = choose|k: nat| first_free_number(d, ev, k);
        lemma_first_free_unique(d, ev, c, n);
    }
    string_of(candidate.as_slice())
}

} // verus!
