use vstd::prelude::*;

verus! {

/// The role of a location in a station.
#[derive(Clone, Copy, Debug, PartialEq, Eq, Structural)]
pub enum LocationType {
    /// A stop, or a platform when it belongs to a station.
    StopPoint,
    /// A station: a structure that contains platforms.
    StopArea,
    /// A place where passengers enter or leave a station from the street.
    StationEntrance,
    /// A location inside a station that only serves to join pathways.
    GenericNode,
    /// A place on a platform where passengers board or alight.
    BoardingArea,
    /// A value that none of the others stands for.
    Unknown(i16),
}

/// A pathway between two locations, named by the keys of the stops it links.
#[derive(Debug)]
pub struct Pathway {
    pub id: String,
    pub from_stop_id: String,
    pub to_stop_id: String,
}

/// A location of the network, with the pathways that were declared from it.
#[derive(Debug)]
pub struct Stop {
    pub id: String,
    pub parent_station: Option<String>,
    pub location_type: LocationType,
    pub pathways: Vec<Pathway>,
}

/// The stops of a network, each under a key; a key names at most one stop.
/// The stops are kept in the order in which their keys were first inserted.
pub struct StopMap {
    entries: Vec<(String, Stop)>,
}

/// The keys and stops of a sequence of entries.
pub open spec fn entries_view(es: Seq<(String, Stop)>) -> Seq<(Seq<char>, Stop)> {
    es.map_values(|e: (String, Stop)| (e.0@, e.1))
}

/// The map that a sequence of entries describes; a later entry under a key
/// hides an earlier one.
pub open spec fn entries_map(es: Seq<(Seq<char>, Stop)>) -> Map<Seq<char>, Stop>
    decreases es.len(),
{
    if es.len() == 0 {
        Map::empty()
    } else {
        entries_map(es.drop_last()).insert(es.last().0, es.last().1)
    }
}

/// No key occurs twice among the entries.
pub open spec fn keys_unique(es: Seq<(Seq<char>, Stop)>) -> bool {
    forall|i: int, j: int| 0 <= i < es.len() && 0 <= j < es.len() && i != j ==> es[i].0 != es[j].0
}

/// The position of the entry under `key`, if there is one.
pub open spec fn key_index(es: Seq<(Seq<char>, Stop)>, key: Seq<char>) -> Option<int> {
    if exists|i: int| 0 <= i < es.len() && es[i].0 == key {
        Some(choose|i: int| 0 <= i < es.len() && es[i].0 == key)
    } else {
        None
    }
}

/// The entries after `key` has been given `stop`: the entry under `key` is
/// replaced in place, or a new entry goes last.
pub open spec fn entries_insert(es: Seq<(Seq<char>, Stop)>, key: Seq<char>, stop: Stop) -> Seq<
    (Seq<char>, Stop),
> {
    match key_index(es, key) {
        Some(i) => es.update(i, (key, stop)),
        None => es.push((key, stop)),
    }
}

/// The stops of a sequence of entries, in order.
pub open spec fn entries_stops(es: Seq<(Seq<char>, Stop)>) -> Seq<Stop> {
    es.map_values(|e: (Seq<char>, Stop)| e.1)
}

/// With unique keys, the map holds exactly the entries.
pub proof fn lemma_entries_map(es: Seq<(Seq<char>, Stop)>)
    requires
        keys_unique(es),
    ensures
        forall|k: Seq<char>|
            #![trigger entries_map(es).contains_key(k)]
            entries_map(es).contains_key(k) <==> exists|i: int| 0 <= i < es.len() && es[i].0 == k,
        forall|i: int| 0 <= i < es.len() ==> #[trigger] entries_map(es)[es[i].0] == es[i].1,
    decreases es.len(),
{
    if es.len() > 0 {
        let init = es.drop_last();
        lemma_entries_map(init);
        assert forall|k: Seq<char>|
            #![trigger entries_map(es).contains_key(k)]
            entries_map(es).contains_key(k) implies exists|i: int| 0 <= i < es.len() && es[i].0 == k by {
            if k == es.last().0 {
                assert(es[es.len() - 1].0 == k);
            } else {
                assert(entries_map(init).contains_key(k));
                let i: int = choose|i: int| 0 <= i < init.len() && init[i].0 == k;
                assert(es[i].0 == k);
            }
        }
        assert forall|k: Seq<char>|
            (exists|i: int| 0 <= i < es.len() && es[i].0 == k) implies #[trigger] entries_map(
            es,
        ).contains_key(k) by {
            let i: int = choose|i: int| 0 <= i < es.len() && es[i].0 == k;
            if i < es.len() - 1 {
                assert(init[i].0 == k);
                assert(entries_map(init).contains_key(k));
            }
        }
        assert forall|i: int| 0 <= i < es.len() implies #[trigger] entries_map(es)[es[i].0]
            == es[i].1 by {
            if i < es.len() - 1 {
                assert(init[i] == es[i]);
                assert(es[i].0 != es[es.len() - 1].0);
                assert(entries_map(init)[init[i].0] == init[i].1);
            }
        }
    }
}

impl StopMap {
    /// The entries of the map, each a key and its stop, in order.
    pub closed spec fn entries(&self) -> Seq<(Seq<char>, Stop)> {
        entries_view(self.entries@)
    }

    /// The stops of the map, in the order of their entries.
    pub open spec fn stops(&self) -> Seq<Stop> {
        entries_stops(self.entries())
    }

    #[verifier::type_invariant]
    closed spec fn inv(&self) -> bool {
        keys_unique(self.entries())
    }

    /// A map without stops.
    pub fn new() -> (m: StopMap)
        ensures
            m.entries() == Seq::<(Seq<char>, Stop)>::empty(),
            m@ == Map::<Seq<char>, Stop>::empty(),
    {
        let m = StopMap { entries: Vec::new() };
        assert(m.entries() =~= Seq::<(Seq<char>, Stop)>::empty());
        m
    }

    /// The number of stops.
    pub fn len(&self) -> (n: usize)
        ensures
            n == self.entries().len(),
    {
        self.entries.len()
    }

    /// The stop of the `i`-th entry.
    pub fn stop_at(&self, i: usize) -> (s: &Stop)
        requires
            i < self.entries().len(),
        ensures
            *s == self.entries()[i as int].1,
    {
        &self.entries[i].1
    }

    /// The position of the entry under `key`, if there is one.
    fn find(&self, key: &String) -> (r: Option<usize>)
        ensures
            match r {
                Some(i) => i < self.entries().len() && self.entries()[i as int].0 == key@,
                None => forall|j: int|
                    0 <= j < self.entries().len() ==> self.entries()[j].0 != key@,
            },
    {
        let n: usize = self.entries.len();
        let mut i: usize = 0;
        while i < n
            invariant
                n == self.entries@.len(),
                i <= n,
                forall|j: int| 0 <= j < i ==> self.entries()[j].0 != key@,
            decreases n - i,
        {
            if self.entries[i].0 == *key {
                return Some(i);
            }
            i = i + 1;
        }
        None
    }

    /// The stop under `key`, if there is one.
    pub fn get(&self, key: &String) -> (r: Option<&Stop>)
        ensures
            match r {
                Some(s) => self@.contains_key(key@) && *s == self@[key@],
                None => !self@.contains_key(key@),
            },
    {
        proof {
            use_type_invariant(self);
            lemma_entries_map(self.entries());
        }
        match self.find(key) {
            Some(i) => Some(&self.entries[i].1),
            None => None,
        }
    }

    /// Puts `stop` under `key`, in place of the stop that was there.
    pub fn insert(&mut self, key: String, stop: Stop)
        ensures
            final(self).entries() == entries_insert(old(self).entries(), key@, stop),
            final(self)@ == old(self)@.insert(key@, stop),
    {
        proof {
            use_type_invariant(&*self);
            lemma_entries_map(self.entries());
        }
        let ghost old_es = self.entries();
        let ghost k = key@;
        match self.find(&key) {
            Some(i) => {
                assert(key_index(old_es, k) == Some(i as int)) by {
                    let c: int = choose|j: int| 0 <= j < old_es.len() && old_es[j].0 == k;
                    assert(c == i);
                }
                let ghost new_es = old_es.update(i as int, (k, stop));
                assert forall|j: int| 0 <= j < new_es.len() implies #[trigger] new_es[j].0
                    == old_es[j].0 by {}
                let mut entries: Vec<(String, Stop)> = Vec::new();
                std::mem::swap(&mut entries, &mut self.entries);
                entries.set(i, (key, stop));
                assert(entries_view(entries@) =~= new_es);
                self.entries = entries;
                proof {
                    lemma_entries_map(new_es);
                    let old_m = entries_map(old_es);
                    let new_m = entries_map(new_es);
                    assert forall|q: Seq<char>| #[trigger] new_m.contains_key(q) == old_m.insert(
                        k,
                        stop,
                    ).contains_key(q) by {
                        if old_m.contains_key(q) {
                            let j: int = choose|j: int| 0 <= j < old_es.len() && old_es[j].0 == q;
                            assert(new_es[j].0 == q);
                        }
                        if new_m.contains_key(q) {
                            let j: int = choose|j: int| 0 <= j < new_es.len() && new_es[j].0 == q;
                            assert(old_es[j].0 == q);
                            assert(old_m.contains_key(q));
                        }
                        assert(old_m.contains_key(k)) by {
                            assert(old_es[i as int].0 == k);
                        }
                    }
                    assert forall|q: Seq<char>| #[trigger] new_m.contains_key(q) implies new_m[q]
                        == old_m.insert(k, stop)[q] by {
                        let j: int = choose|j: int| 0 <= j < new_es.len() && new_es[j].0 == q;
                        assert(new_m[new_es[j].0] == new_es[j].1);
                        if j != i {
                            assert(old_es[j] == new_es[j]);
                            assert(old_m[old_es[j].0] == old_es[j].1);
                            assert(old_es[j].0 != old_es[i as int].0);
                        }
                    }
                    assert(new_m =~= old_m.insert(k, stop));
                }
            },
            None => {
                let ghost new_es = old_es.push((k, stop));
                let mut entries: Vec<(String, Stop)> = Vec::new();
                std::mem::swap(&mut entries, &mut self.entries);
                entries.push((key, stop));
                assert(entries_view(entries@) =~= new_es);
                assert(new_es.drop_last() =~= old_es);
                assert(keys_unique(new_es)) by {
                    assert forall|a: int, b: int|
                        0 <= a < new_es.len() && 0 <= b < new_es.len() && a != b implies new_es[a].0
                        != new_es[b].0 by {
                        if a < old_es.len() && b < old_es.len() {
                            assert(new_es[a] == old_es[a] && new_es[b] == old_es[b]);
                        } else if a < old_es.len() {
                            assert(new_es[a] == old_es[a]);
                        } else {
                            assert(new_es[b] == old_es[b]);
                        }
                    }
                }
                self.entries = entries;
            },
        }
    }
}

impl View for StopMap {
    type V = Map<Seq<char>, Stop>;

    /// Each key with its stop.
    open spec fn view(&self) -> Map<Seq<char>, Stop> {
        entries_map(self.entries())
    }
}

} // verus!
