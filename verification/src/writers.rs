//! A relation between texts and the process instances that wrote them.

use crate::provenance;
use crate::provenance::rewrite_path_prefix;
use crate::tracer::ProcessInstance;
use vstd::hash_map::*;
use vstd::prelude::*;
use vstd::string::*;

verus! {

/// Who wrote what: for each text (a path or a content hash) its writers.
pub struct Writers {
    keys: Vec<String>,
    lists: Vec<Vec<ProcessInstance>>,
    index: StringHashMap<usize>,
}

/// A copy of a list of process instances.
pub fn copy_processes(list: &Vec<ProcessInstance>) -> (copy: Vec<ProcessInstance>)
    ensures
        copy@ == list@,
{
    let mut copy: Vec<ProcessInstance> = Vec::new();
    for i in 0..list.len()
        invariant
            copy@ == list@.take(i as int),
    {
        copy.push(list[i]);
        assert(list@.take(i as int + 1) =~= list@.take(i as int).push(list@[i as int]));
    }
    assert(list@.take(list@.len() as int) =~= list@);
    copy
}

fn has_process(list: &Vec<ProcessInstance>, process: ProcessInstance) -> (yes: bool)
    ensures
        yes == list@.contains(process),
{
    for i in 0..list.len()
        invariant
            forall|k: int| 0 <= k < i ==> list@[k] != process,
    {
        if list[i] == process {
            assert(list@[i as int] == process);
            return true;
        }
    }
    false
}

impl View for Writers {
    type V = Set<(Seq<char>, ProcessInstance)>;

    closed spec fn view(&self) -> Set<(Seq<char>, ProcessInstance)> {
        Set::new(
            |x: (Seq<char>, ProcessInstance)|
                self.index@.contains_key(x.0) && self.lists@[self.index@[x.0] as int]@.contains(x.1),
        )
    }
}

impl Writers {
    /// Every text has one list of writers.
    pub closed spec fn well_formed(&self) -> bool {
        &&& self.keys@.len() == self.lists@.len()
        &&& forall|t: Seq<char>| #[trigger]
            self.index@.contains_key(t) ==> self.index@[t] < self.keys@.len()
                && self.keys@[self.index@[t] as int]@ == t
        &&& forall|i: int|
            0 <= i < self.keys@.len() ==> self.index@.contains_key((#[trigger] self.keys@[i])@)
                && self.index@[self.keys@[i]@] == i
    }

    /// The empty relation.
    pub fn new() -> (w: Writers)
        ensures
            w.well_formed(),
            w@ == Set::<(Seq<char>, ProcessInstance)>::empty(),
    {
        let w = Writers { keys: Vec::new(), lists: Vec::new(), index: StringHashMap::new() };
        assert(w@ =~= Set::<(Seq<char>, ProcessInstance)>::empty());
        w
    }

    /// Adds a writer of a text.
    pub fn add(&mut self, key: &str, process: ProcessInstance)
        requires
            old(self).well_formed(),
        ensures
            final(self).well_formed(),
            final(self)@ == old(self)@.insert((key@, process)),
    {
        let at = match self.index.get(key) {
            Some(at) => *at,
            None => {
                let at = self.keys.len();
                self.keys.push(key.to_string());
                self.lists.push(Vec::new());
                self.index.insert(key.to_string(), at);
                at
            },
        };
        assert(self.well_formed());
        assert(self@ =~= old(self)@);
        let ghost before = *self;
        if has_process(&self.lists[at], process) {
            assert(old(self)@.insert((key@, process)) =~= old(self)@);
            return;
        }
        let mut list = copy_processes(&self.lists[at]);
        let ghost seen = list@;
        list.push(process);
        self.lists.set(at, list);
        proof {
            assert(self.well_formed());
            assert forall|x: (Seq<char>, ProcessInstance)| #[trigger]
                self@.contains(x) <==> before@.insert((key@, process)).contains(x) by {
                if self.index@.contains_key(x.0) {
                    let i = self.index@[x.0] as int;
                    if i == at as int {
                        assert(x.0 == key@);
                        let l = self.lists@[i]@;
                        assert(l == seen.push(process));
                        if l.contains(x.1) {
                            let k = choose|k: int| 0 <= k < l.len() && l[k] == x.1;
                            if k < seen.len() {
                                assert(seen[k] == x.1);
                            }
                        }
                        if seen.contains(x.1) {
                            let k = choose|k: int| 0 <= k < seen.len() && seen[k] == x.1;
                            assert(l[k] == x.1);
                        }
                        assert(l[seen.len() as int] == process);
                    }
                }
            }
            assert(self@ =~= before@.insert((key@, process)));
        }
    }

    /// The writers of a text.
    pub fn of(&self, key: &str) -> (list: Vec<ProcessInstance>)
        requires
            self.well_formed(),
        ensures
            forall|p: ProcessInstance| #[trigger]
                list@.contains(p) <==> self@.contains((key@, p)),
    {
        match self.index.get(key) {
            Some(at) => copy_processes(&self.lists[*at]),
            None => Vec::new(),
        }
    }

    /// Lets the writers of every renamed path also be writers of its new place.
    pub fn add_aliases(&mut self, from: &str, to: &str)
        requires
            old(self).well_formed(),
        ensures
            final(self).well_formed(),
            final(self)@ == provenance::with_aliases(old(self)@, from@, to@),
    {
        let count = self.keys.len();
        let mut places: Vec<String> = Vec::new();
        let mut lists: Vec<Vec<ProcessInstance>> = Vec::new();
        let ghost mut sources: Seq<int> = Seq::empty();
        for i in 0..count
            invariant
                self.well_formed(),
                *self == *old(self),
                count == self.keys.len(),
                places.len() == lists.len(),
                sources.len() == places.len(),
                forall|k: int|
                    0 <= k < sources.len() ==> 0 <= #[trigger] sources[k] < i
                        && provenance::rewritten(self.keys@[sources[k]]@, from@, to@) == Some(
                        places@[k]@,
                    ) && lists@[k]@ == self.lists@[sources[k]]@,
                forall|j: int|
                    0 <= j < i && provenance::rewritten(
                        (#[trigger] self.keys@[j])@,
                        from@,
                        to@,
                    ) is Some ==> sources.contains(j),
        {
            let ghost before = sources;
            if let Some(place) = rewrite_path_prefix(self.keys[i].as_str(), from, to) {
                places.push(place);
                lists.push(copy_processes(&self.lists[i]));
                proof {
                    sources = sources.push(i as int);
                    assert(sources[before.len() as int] == i as int);
                    assert forall|j: int| before.contains(j) implies sources.contains(j) by {
                        let k = choose|k: int| 0 <= k < before.len() && before[k] == j;
                        assert(sources[k] == j);
                    }
                }
            }
        }
        let ghost aliased = |n: int, x: (Seq<char>, ProcessInstance)|
            exists|k: int| 0 <= k < n && (#[trigger] places@[k])@ == x.0 && lists@[k]@.contains(x.1);
        for k in 0..places.len()
            invariant
                self.well_formed(),
                places.len() == lists.len(),
                aliased == |n: int, x: (Seq<char>, ProcessInstance)|
                    exists|k: int|
                        0 <= k < n && (#[trigger] places@[k])@ == x.0 && lists@[k]@.contains(x.1),
                forall|x: (Seq<char>, ProcessInstance)| #[trigger]
                    self@.contains(x) <==> old(self)@.contains(x) || aliased(k as int, x),
        {
            let ghost before = self@;
            let n = lists[k].len();
            for j in 0..n
                invariant
                    k < places.len(),
                    n == lists@[k as int]@.len(),
                    places.len() == lists.len(),
                    self.well_formed(),
                    forall|x: (Seq<char>, ProcessInstance)| #[trigger]
                        self@.contains(x) <==> before.contains(x) || (x.0 == places@[k as int]@
                            && lists@[k as int]@.take(j as int).contains(x.1)),
            {
                let ghost l = lists@[k as int]@;
                let ghost inner = self@;
                self.add(places[k].as_str(), lists[k][j]);
                proof {
                    assert(l.take(j as int + 1) =~= l.take(j as int).push(l[j as int]));
                    assert forall|p: ProcessInstance| l.take(j as int + 1).contains(p) <==> l.take(
                        j as int,
                    ).contains(p) || p == l[j as int] by {
                        let a = l.take(j as int);
                        let b = a.push(l[j as int]);
                        if b.contains(p) {
                            let m = choose|m: int| 0 <= m < b.len() && b[m] == p;
                            if m < a.len() {
                                assert(a[m] == p);
                            }
                        }
                        if a.contains(p) {
                            let m = choose|m: int| 0 <= m < a.len() && a[m] == p;
                            assert(b[m] == p);
                        }
                        assert(b[a.len() as int] == l[j as int]);
                    }
                    assert forall|x: (Seq<char>, ProcessInstance)| #[trigger]
                        self@.contains(x) <==> before.contains(x) || (x.0 == places@[k as int]@
                            && l.take(j as int + 1).contains(x.1)) by {
                        assert(self@.contains(x) <==> inner.contains(x) || x == (
                            places@[k as int]@,
                            l[j as int],
                        ));
                    }
                }
            }
            proof {
                let l = lists@[k as int]@;
                assert(l.take(l.len() as int) =~= l);
                assert forall|x: (Seq<char>, ProcessInstance)| #[trigger]
                    self@.contains(x) <==> old(self)@.contains(x) || aliased(k as int + 1, x) by {
                    if aliased(k as int + 1, x) {
                        let m = choose|m: int|
                            0 <= m < k + 1 && (#[trigger] places@[m])@ == x.0
                                && lists@[m]@.contains(x.1);
                        if m < k {
                            assert(aliased(k as int, x));
                        }
                    }
                    if aliased(k as int, x) {
                        let m = choose|m: int|
                            0 <= m < k && (#[trigger] places@[m])@ == x.0
                                && lists@[m]@.contains(x.1);
                        assert(aliased(k as int + 1, x));
                    }
                    if x.0 == places@[k as int]@ && l.contains(x.1) {
                        assert(aliased(k as int + 1, x));
                    }
                }
            }
        }
        proof {
            let w = old(self)@;
            let after = provenance::with_aliases(w, from@, to@);
            assert forall|x: (Seq<char>, ProcessInstance)| #[trigger]
                self@.contains(x) <==> after.contains(x) by {
                if aliased(places@.len() as int, x) {
                    let k = choose|k: int|
                        0 <= k < places@.len() && (#[trigger] places@[k])@ == x.0
                            && lists@[k]@.contains(x.1);
                    let p = old(self).keys@[sources[k]]@;
                    assert(w.contains((p, x.1)));
                    assert(provenance::rewritten(p, from@, to@) == Some(x.0));
                }
                if after.contains(x) && !w.contains(x) {
                    let p = choose|p: Seq<char>|
                        #![trigger provenance::rewritten(p, from@, to@)]
                        w.contains((p, x.1)) && provenance::rewritten(p, from@, to@) == Some(x.0);
                    let j = old(self).index@[p] as int;
                    assert(old(self).keys@[j]@ == p);
                    assert(sources.contains(j));
                    let k = choose|k: int| 0 <= k < sources.len() && sources[k] == j;
                    assert(places@[k]@ == x.0);
                    assert(aliased(places@.len() as int, x));
                }
            }
            assert(self@ =~= after);
        }
    }
}

} // verus!
