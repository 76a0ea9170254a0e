//! The header mapping of a request: unique names, and a later write to a
//! name replaces the earlier value.

use vstd::prelude::*;

use crate::grammar::HeaderLine;
use crate::scan::str_eq;

verus! {

/// The mapping a list of header entries denotes: the entries inserted in
/// order, so that the value of the last occurrence of a name wins.
pub open spec fn map_of(es: Seq<HeaderLine>) -> Map<Seq<char>, Seq<char>>
    decreases es.len(),
{
    if es.len() == 0 {
        Map::empty()
    } else {
        map_of(es.drop_last()).insert(es.last().name@, es.last().value@)
    }
}

/// A name is in the mapping exactly when some entry carries it.
pub proof fn lemma_map_of_contains(es: Seq<HeaderLine>, k: Seq<char>)
    ensures
        map_of(es).contains_key(k) <==> exists|p: int| 0 <= p < es.len() && #[trigger] es[p].name@
            == k,
    decreases es.len(),
{
    if es.len() > 0 {
        lemma_map_of_contains(es.drop_last(), k);
        if map_of(es).contains_key(k) && es.last().name@ != k {
            let p = choose|p: int| 0 <= p < es.len() - 1 && #[trigger] es.drop_last()[p].name@ == k;
            assert(es[p].name@ == k);
        }
        if exists|p: int| 0 <= p < es.len() && #[trigger] es[p].name@ == k {
            let p = choose|p: int| 0 <= p < es.len() && #[trigger] es[p].name@ == k;
            if p < es.len() - 1 {
                assert(es.drop_last()[p].name@ == k);
            }
        }
    }
}

/// Entry names are pairwise distinct.
pub open spec fn names_unique(es: Seq<HeaderLine>) -> bool {
    forall|p: int, q: int|
        0 <= p < q < es.len() ==> (#[trigger] es[p].name@) != (#[trigger] es[q].name@)
}

/// With unique names, an entry's name maps to its own value.
pub proof fn lemma_map_of_get(es: Seq<HeaderLine>, i: int)
    requires
        names_unique(es),
        0 <= i < es.len(),
    ensures
        map_of(es).contains_key(es[i].name@),
        map_of(es)[es[i].name@] == es[i].value@,
    decreases es.len(),
{
    lemma_map_of_contains(es, es[i].name@);
    if i < es.len() - 1 {
        assert(names_unique(es.drop_last()));
        assert(es.drop_last()[i] == es[i]);
        lemma_map_of_get(es.drop_last(), i);
    }
}

/// With unique names, the mapping has one pair per entry.
pub proof fn lemma_map_of_len(es: Seq<HeaderLine>)
    requires
        names_unique(es),
    ensures
        map_of(es).dom().finite(),
        map_of(es).len() == es.len(),
    decreases es.len(),
{
    if es.len() > 0 {
        assert(names_unique(es.drop_last()));
        lemma_map_of_len(es.drop_last());
        lemma_map_of_contains(es.drop_last(), es.last().name@);
        assert(forall|p: int| 0 <= p < es.len() - 1 ==> (#[trigger] es.drop_last()[p].name@)
            != es.last().name@);
    }
}

/// Replacing the value of the entry that holds a name is an insert of that
/// name into the mapping.
pub proof fn lemma_map_of_update(es: Seq<HeaderLine>, i: int, e2: HeaderLine)
    requires
        names_unique(es),
        0 <= i < es.len(),
        e2.name@ == es[i].name@,
    ensures
        map_of(es.update(i, e2)) == map_of(es).insert(e2.name@, e2.value@),
    decreases es.len(),
{
    let upd = es.update(i, e2);
    if i == es.len() - 1 {
        assert(upd.drop_last() =~= es.drop_last());
        assert(map_of(es.update(i, e2)) =~= map_of(es).insert(e2.name@, e2.value@));
    } else {
        assert(names_unique(es.drop_last()));
        assert(es.drop_last()[i] == es[i]);
        lemma_map_of_update(es.drop_last(), i, e2);
        assert(upd.drop_last() =~= es.drop_last().update(i, e2));
        assert(upd.last() == es.last());
        // the two inserted names differ, so the inserts commute
        assert(es.last().name@ != e2.name@);
        assert(map_of(upd) =~= map_of(es).insert(e2.name@, e2.value@));
    }
}

/// The header mapping of one request: names unique, a later insert of an
/// existing name replaces the value.
#[derive(Debug)]
pub struct Headers {
    entries: Vec<HeaderLine>,
}

impl View for Headers {
    type V = Map<Seq<char>, Seq<char>>;

    closed spec fn view(&self) -> Map<Seq<char>, Seq<char>> {
        map_of(self.entries@)
    }
}

impl Headers {
    #[verifier::type_invariant]
    spec fn wf(self) -> bool {
        names_unique(self.entries@)
    }

    /// An empty mapping.
    pub fn new() -> (h: Headers)
        ensures
            h@ == Map::<Seq<char>, Seq<char>>::empty(),
    {
        Headers { entries: Vec::new() }
    }

    /// Insert a pair; a later insert of the same name wins.
    pub fn insert(&mut self, name: String, value: String)
        ensures
            final(self)@ == old(self)@.insert(name@, value@),
    {
        proof {
            use_type_invariant(&*self);
        }
        let mut entries: Vec<HeaderLine> = Vec::new();
        core::mem::swap(&mut entries, &mut self.entries);
        let ghost es = entries@;
        let n = entries.len();
        let mut j: usize = 0;
        while j < n
            invariant
                n == entries@.len(),
                j <= n,
                entries@ == es,
                es == old(self).entries@,
                names_unique(es),
                forall|p: int| 0 <= p < j ==> (#[trigger] entries@[p].name@) != name@,
            decreases n - j,
        {
            if str_eq(entries[j].name.as_str(), name.as_str()) {
                let e2 = HeaderLine { name, value };
                proof {
                    lemma_map_of_update(es, j as int, e2);
                    assert(forall|p: int, q: int|
                        0 <= p < q < es.len() ==> (#[trigger] es.update(j as int, e2)[p].name@)
                            != (#[trigger] es.update(j as int, e2)[q].name@));
                }
                entries.set(j, e2);
                self.entries = entries;
                return ;
            }
            j = j + 1;
        }
        let e2 = HeaderLine { name, value };
        proof {
            lemma_map_of_contains(es, e2.name@);
            assert(es.push(e2).drop_last() =~= es);
            assert(map_of(es.push(e2)) == map_of(es).insert(e2.name@, e2.value@));
        }
        entries.push(e2);
        self.entries = entries;
    }

    /// Whether a name is present.
    pub fn contains_key(&self, k: &str) -> (b: bool)
        ensures
            b == self@.contains_key(k@),
    {
        proof {
            use_type_invariant(&*self);
            lemma_map_of_contains(self.entries@, k@);
        }
        let n = self.entries.len();
        let mut j: usize = 0;
        while j < n
            invariant
                n == self.entries@.len(),
                j <= n,
                forall|p: int| 0 <= p < j ==> (#[trigger] self.entries@[p].name@) != k@,
            decreases n - j,
        {
            if str_eq(self.entries[j].name.as_str(), k) {
                proof {
                    use_type_invariant(&*self);
                    lemma_map_of_contains(self.entries@, k@);
                    assert(self.entries@[j as int].name@ == k@);
                }
                return true;
            }
            j = j + 1;
        }
        proof {
            lemma_map_of_contains(self.entries@, k@);
        }
        false
    }

    /// The value a name maps to, if it is present.
    pub fn get(&self, k: &str) -> (r: Option<&String>)
        ensures
            match r {
                Some(v) => self@.contains_key(k@) && self@[k@] == v@,
                None => !self@.contains_key(k@),
            },
    {
        proof {
            use_type_invariant(&*self);
            lemma_map_of_contains(self.entries@, k@);
        }
        let n = self.entries.len();
        let mut j: usize = 0;
        while j < n
            invariant
                n == self.entries@.len(),
                j <= n,
                names_unique(self.entries@),
                forall|p: int| 0 <= p < j ==> (#[trigger] self.entries@[p].name@) != k@,
            decreases n - j,
        {
            if str_eq(self.entries[j].name.as_str(), k) {
                proof {
                    lemma_map_of_get(self.entries@, j as int);
                }
                return Some(&self.entries[j].value);
            }
            j = j + 1;
        }
        proof {
            lemma_map_of_contains(self.entries@, k@);
        }
        None
    }

    /// The number of distinct names.
    pub fn len(&self) -> (n: usize)
        ensures
            n == self@.len(),
    {
        proof {
            use_type_invariant(&*self);
            lemma_map_of_len(self.entries@);
        }
        self.entries.len()
    }

    /// Whether the mapping is empty.
    pub fn is_empty(&self) -> (b: bool)
        ensures
            b == (self@ =~= Map::<Seq<char>, Seq<char>>::empty()),
    {
        proof {
            use_type_invariant(&*self);
            lemma_map_of_len(self.entries@);
            if self.entries@.len() == 0 {
            } else {
                lemma_map_of_get(self.entries@, 0);
            }
        }
        self.entries.len() == 0
    }
}

} // verus!
