//! Lists of `(name, value)` entries kept in strictly increasing name order,
//! used where a map from names to values must be walked deterministically.

use vstd::prelude::*;
use crate::text::chars_of;
use crate::text_order::{chars_lt, lemma_lt_irreflexive, lemma_lt_total, lemma_lt_transitive, seq_lt};

verus! {

/// Whether the entries' names strictly increase.
pub open spec fn names_sorted<T>(c: Seq<(String, T)>) -> bool {
    forall|i: int, j: int| 0 <= i < j < c.len() ==> seq_lt(#[trigger] c[i].0@, #[trigger] c[j].0@)
}

/// Whether some entry of `c` is named `name`.
pub open spec fn has_name<T>(c: Seq<(String, T)>, name: Seq<char>) -> bool {
    exists|i: int| 0 <= i < c.len() && #[trigger] c[i].0@ == name
}

/// Whether `new` is `old` with the entry `(name, value)` put in place of the
/// one of the same name, or added where the order puts it.
pub open spec fn keyed_insert<T>(new: Seq<(String, T)>, old: Seq<(String, T)>, name: Seq<char>, value: T) -> bool {
    &&& names_sorted(new)
    &&& exists|i: int| 0 <= i < new.len() && #[trigger] new[i].0@ == name && new[i].1 == value
    &&& forall|j: int| 0 <= j < old.len() && old[j].0@ != name ==> exists|i: int| 0 <= i < new.len() && #[trigger] new[i] == #[trigger] old[j]
    &&& forall|i: int| 0 <= i < new.len() && new[i].0@ != name ==> exists|j: int| 0 <= j < old.len() && #[trigger] new[i] == #[trigger] old[j]
    &&& new.len() == if has_name(old, name) { old.len() } else { old.len() + 1 }
}

/// Where the entry `name` is: `(true, i)` if `entries[i]` has that name,
/// else `(false, p)` with `p` the position that keeps names in order.
pub fn locate_name<T>(entries: &Vec<(String, T)>, name: &[char]) -> (r: (bool, usize))
    requires
        names_sorted(entries@),
    ensures
        r.0 ==> r.1 < entries@.len() && entries@[r.1 as int].0@ == name@,
        !r.0 ==> r.1 <= entries@.len() && forall|j: int| 0 <= j < entries@.len() ==> entries@[j].0@ != name@,
        !r.0 ==> forall|j: int| 0 <= j < r.1 ==> seq_lt(#[trigger] entries@[j].0@, name@),
        !r.0 ==> forall|j: int| r.1 <= j < entries@.len() ==> seq_lt(name@, #[trigger] entries@[j].0@),
{
    let mut i: usize = 0;
    while i < entries.len()
        invariant
            i <= entries@.len(),
            names_sorted(entries@),
            forall|j: int| 0 <= j < i ==> seq_lt(#[trigger] entries@[j].0@, name@),
        decreases entries@.len() - i,
    {
        let cn = chars_of(entries[i].0.as_str());
        if chars_lt(cn.as_slice(), name) {
            i = i + 1;
        } else {
            proof {
                lemma_lt_total(cn@, name@);
            }
            if !chars_lt(name, cn.as_slice()) {
                return (true, i);
            }
            proof {
                assert forall|j: int| i <= j < entries@.len() implies seq_lt(name@, #[trigger] entries@[j].0@) by {
                    if j > i {
                        lemma_lt_transitive(name@, entries@[i as int].0@, entries@[j].0@);
                    }
                }
                assert forall|j: int| 0 <= j < entries@.len() implies entries@[j].0@ != name@ by {
                    lemma_lt_irreflexive(name@);
                }
            }
            return (false, i);
        }
    }
    proof {
        assert forall|j: int| 0 <= j < entries@.len() implies entries@[j].0@ != name@ by {
            lemma_lt_irreflexive(name@);
        }
    }
    (false, i)
}

/// Puts `(name, value)` in `entries`, replacing the entry of that name if
/// there is one, so that names stay in increasing order.
pub fn insert_keyed<T>(entries: &mut Vec<(String, T)>, name: String, value: T)
    requires
        names_sorted(old(entries)@),
    ensures
        keyed_insert(final(entries)@, old(entries)@, name@, value),
{
    let key = chars_of(name.as_str());
    let (found, pos) = locate_name(entries, key.as_slice());
    let ghost o = entries@;
    if found {
        entries.remove(pos);
        entries.insert(pos, (name, value));
    } else {
        entries.insert(pos, (name, value));
    }
    proof {
        let nw = entries@;
        assert(nw[pos as int].0@ == key@ && nw[pos as int].1 == value);
        if found {
            assert(has_name(o, key@)) by {
                assert(o[pos as int].0@ == key@);
            }
            assert forall|a: int, b: int| 0 <= a < b < nw.len() implies seq_lt(#[trigger] nw[a].0@, #[trigger] nw[b].0@) by {
                assert(seq_lt(o[a].0@, o[b].0@));
            }
            assert forall|j: int| 0 <= j < o.len() && o[j].0@ != key@ implies exists|i: int| 0 <= i < nw.len() && #[trigger] nw[i] == #[trigger] o[j] by {
                assert(nw[j] == o[j]);
            }
            assert forall|i: int| 0 <= i < nw.len() && nw[i].0@ != key@ implies exists|j: int| 0 <= j < o.len() && #[trigger] nw[i] == #[trigger] o[j] by {
                assert(nw[i] == o[i]);
            }
        } else {
            assert(!has_name(o, key@));
            assert forall|a: int, b: int| 0 <= a < b < nw.len() implies seq_lt(#[trigger] nw[a].0@, #[trigger] nw[b].0@) by {
                if b < pos {
                    assert(seq_lt(o[a].0@, o[b].0@));
                } else if b == pos {
                } else if a < pos {
                    lemma_lt_transitive(o[a].0@, key@, o[b - 1].0@);
                } else if a == pos {
                } else {
                    assert(seq_lt(o[a - 1].0@, o[b - 1].0@));
                }
            }
            assert forall|j: int| 0 <= j < o.len() && o[j].0@ != key@ implies exists|i: int| 0 <= i < nw.len() && #[trigger] nw[i] == #[trigger] o[j] by {
                if j < pos {
                    assert(nw[j] == o[j]);
                } else {
                    assert(nw[j + 1] == o[j]);
                }
            }
            assert forall|i: int| 0 <= i < nw.len() && nw[i].0@ != key@ implies exists|j: int| 0 <= j < o.len() && #[trigger] nw[i] == #[trigger] o[j] by {
                if i < pos {
                    assert(nw[i] == o[i]);
                } else {
                    assert(nw[i] == o[i - 1]);
                }
            }
        }
    }
}

} // verus!
