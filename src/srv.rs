use vstd::multiset::Multiset;
use vstd::prelude::*;

verus! {

broadcast use vstd::seq_lib::group_to_multiset_ensures;

/// One service-discovery record: a backend candidate with its rank.
#[derive(Debug, Clone)]
pub struct SrvRecord {
    pub priority: u16,
    pub weight: u16,
    pub port: u16,
    pub target: String,
}

impl PartialEq for SrvRecord {
    /// Records compare by priority alone.
    fn eq(&self, other: &Self) -> (r: bool) {
        self.priority == other.priority
    }
}

impl vstd::std_specs::cmp::PartialEqSpecImpl for SrvRecord {
    open spec fn obeys_eq_spec() -> bool {
        true
    }

    open spec fn eq_spec(&self, other: &SrvRecord) -> bool {
        self.priority == other.priority
    }
}

/// Sum of the weights of `s`.
pub open spec fn weight_sum(s: Seq<SrvRecord>) -> int
    decreases s.len(),
{
    if s.len() == 0 {
        0
    } else {
        weight_sum(s.drop_last()) + s.last().weight
    }
}

/// Index `i` is the one that weighted selection with draw `v` picks from `s`:
/// the first record whose running weight total reaches `v`.
pub open spec fn is_pick(s: Seq<SrvRecord>, v: int, i: int) -> bool {
    &&& 0 <= i < s.len()
    &&& weight_sum(s.subrange(0, i + 1)) >= v
    &&& forall|j: int| 0 <= j < i ==> weight_sum(#[trigger] s.subrange(0, j + 1)) < v
}

/// Priorities never decrease along `s`.
pub open spec fn sorted_by_priority(s: Seq<SrvRecord>) -> bool {
    forall|i: int, j: int| 0 <= i < j < s.len() ==> s[i].priority <= s[j].priority
}

/// Length of the leading run of records in `s` whose priority is `p`.
pub open spec fn run_len(s: Seq<SrvRecord>, p: u16) -> nat
    decreases s.len(),
{
    if s.len() > 0 && s[0].priority == p {
        1 + run_len(s.drop_first(), p)
    } else {
        0
    }
}

proof fn lemma_weight_sum_bounds(s: Seq<SrvRecord>)
    ensures
        0 <= weight_sum(s) <= 65535 * s.len(),
    decreases s.len(),
{
    if s.len() > 0 {
        lemma_weight_sum_bounds(s.drop_last());
    }
}

/// Relies on rand::thread_rng and rand::Rng::gen_range: a uniform draw from the
/// inclusive range `0..=hi`, which is never empty.
#[verifier::external_body]
fn draw_up_to(hi: u128) -> (r: u128)
    ensures
        r <= hi,
{
    rand::Rng::gen_range(&mut rand::thread_rng(), 0..=hi)
}

/// A priority group: records of equal priority, drawn by weight without replacement.
pub struct WeightedSrvMap {
    records: Vec<SrvRecord>,
}

impl View for WeightedSrvMap {
    type V = Seq<SrvRecord>;

    closed spec fn view(&self) -> Seq<SrvRecord> {
        self.records@
    }
}

impl WeightedSrvMap {
    /// A group holding `records`, in the given order.
    pub fn from_records(records: Vec<SrvRecord>) -> (r: Self)
        ensures
            r@ == records@,
    {
        WeightedSrvMap { records }
    }

    pub fn len(&self) -> (r: usize)
        ensures
            r == self@.len(),
    {
        self.records.len()
    }

    /// Sum of the weights of the records still in the group.
    pub fn total_weight(&self) -> (r: u128)
        ensures
            r == weight_sum(self@),
    {
        let mut total: u128 = 0;
        let mut i: usize = 0;
        while i < self.records.len()
            invariant
                i <= self.records@.len(),
                total == weight_sum(self.records@.subrange(0, i as int)),
                total <= 65535 * i,
            decreases self.records@.len() - i,
        {
            assert(self.records@.subrange(0, i + 1).drop_last() =~= self.records@.subrange(0, i as int));
            total = total + self.records[i].weight as u128;
            i = i + 1;
        }
        assert(self.records@.subrange(0, i as int) =~= self.records@);
        total
    }

    /// Index that weighted selection with draw `v` picks.
    fn select_index(&self, v: u128) -> (r: usize)
        requires
            self@.len() > 0,
            v <= weight_sum(self@),
        ensures
            is_pick(self@, v as int, r as int),
    {
        let ghost s = self.records@;
        let mut acc: u128 = 0;
        let mut i: usize = 0;
        loop
            invariant
                s == self.records@,
                i < s.len(),
                v <= weight_sum(s),
                acc == weight_sum(s.subrange(0, i as int)),
                acc <= 65535 * i,
                forall|j: int| 0 <= j < i ==> weight_sum(#[trigger] s.subrange(0, j + 1)) < v,
            decreases s.len() - i,
        {
            assert(s.subrange(0, i + 1).drop_last() =~= s.subrange(0, i as int));
            acc = acc + self.records[i].weight as u128;
            if acc >= v {
                return i;
            }
            if i == self.records.len() - 1 {
                assert(s.subrange(0, i + 1) =~= s);
                assert(false);
            }
            i = i + 1;
        }
    }

    /// Removes and returns the record that draw `v` picks; `None` when empty.
    pub fn take_with(&mut self, v: u128) -> (r: Option<SrvRecord>)
        requires
            v <= weight_sum(old(self)@),
        ensures
            old(self)@.len() == 0 ==> r is None && final(self)@ == old(self)@,
            old(self)@.len() > 0 ==> exists|i: int|
                is_pick(old(self)@, v as int, i) && r == Some(old(self)@[i]) && final(self)@
                    == old(self)@.remove(i),
    {
        if self.records.len() == 0 {
            return None;
        }
        let i = self.select_index(v);
        let rec = self.records.remove(i);
        Some(rec)
    }

    /// Draws a record at random, in proportion to weight, and removes it.
    pub fn next(&mut self) -> (r: Option<SrvRecord>)
        ensures
            r is None <==> old(self)@.len() == 0,
            r is None ==> final(self)@ == old(self)@,
            r matches Some(x) ==> exists|v: int, i: int|
                0 <= v <= weight_sum(old(self)@) && is_pick(old(self)@, v, i) && x == old(self)@[i]
                    && final(self)@ == old(self)@.remove(i),
    {
        let total = self.total_weight();
        let v = draw_up_to(total);
        self.take_with(v)
    }
}

/// Splits sorted records into priority groups, lowest priority first.
pub struct PriorityGroupIter {
    inner: Vec<SrvRecord>,
}

impl PriorityGroupIter {
    /// Records not yet handed out in a group.
    pub closed spec fn rest(&self) -> Seq<SrvRecord> {
        self.inner@
    }

    /// An iterator over the groups of `records`, which it takes in the given order.
    pub fn new(records: Vec<SrvRecord>) -> (r: Self)
        ensures
            r.rest() == records@,
    {
        PriorityGroupIter { inner: records }
    }

    /// The group that starts with `first_record`: it and the records that follow
    /// it with the same priority.
    pub fn pull(&mut self, first_record: SrvRecord) -> (r: WeightedSrvMap)
        ensures
            r@ == seq![first_record] + old(self).rest().subrange(
                0,
                run_len(old(self).rest(), first_record.priority) as int,
            ),
            final(self).rest() == old(self).rest().subrange(
                run_len(old(self).rest(), first_record.priority) as int,
                old(self).rest().len() as int,
            ),
    {
        let priority = first_record.priority;
        let ghost s = self.inner@;
        let ghost first = first_record;
        let mut records = vec![first_record];
        let ghost mut c: int = 0;
        while self.inner.len() > 0 && self.inner[0].priority == priority
            invariant
                0 <= c <= s.len(),
                records@ == seq![first] + s.subrange(0, c),
                self.inner@ == s.subrange(c, s.len() as int),
                run_len(s, priority) == c + run_len(self.inner@, priority),
            decreases self.inner@.len(),
        {
            let record = self.inner.remove(0);
            proof {
                assert(s.subrange(0, c + 1) =~= s.subrange(0, c).push(record));
                assert(self.inner@ =~= s.subrange(c + 1, s.len() as int));
                c = c + 1;
            }
            records.push(record);
        }
        WeightedSrvMap { records }
    }

    /// The next priority group, or `None` when no record is left.
    pub fn next(&mut self) -> (r: Option<WeightedSrvMap>)
        ensures
            r is None <==> old(self).rest().len() == 0,
            r is None ==> final(self).rest() == old(self).rest(),
            r matches Some(m) ==> {
                let k = run_len(old(self).rest(), old(self).rest()[0].priority) as int;
                &&& 1 <= k <= old(self).rest().len()
                &&& m@ == old(self).rest().subrange(0, k)
                &&& final(self).rest() == old(self).rest().subrange(k, old(self).rest().len() as int)
            },
    {
        if self.inner.len() == 0 {
            return None;
        }
        let ghost s = self.inner@;
        let first = self.inner.remove(0);
        proof {
            lemma_run_len_bound(self.inner@, first.priority);
        }
        let m = self.pull(first);
        proof {
            let k = run_len(s.drop_first(), first.priority) as int;
            assert(m@ =~= s.subrange(0, k + 1));
            assert(final(self).rest() =~= s.subrange(k + 1, s.len() as int)) by {
                assert(old(self).rest().drop_first().subrange(k, s.len() - 1) =~= s.subrange(k + 1, s.len() as int));
            }
        }
        Some(m)
    }
}

proof fn lemma_run_len_bound(s: Seq<SrvRecord>, p: u16)
    ensures
        run_len(s, p) <= s.len(),
        forall|j: int| 0 <= j < run_len(s, p) ==> #[trigger] s[j].priority == p,
        run_len(s, p) < s.len() ==> s[run_len(s, p) as int].priority != p,
    decreases s.len(),
{
    if s.len() > 0 && s[0].priority == p {
        lemma_run_len_bound(s.drop_first(), p);
        assert forall|j: int| 0 <= j < run_len(s, p) implies #[trigger] s[j].priority == p by {
            if j > 0 {
                assert(s[j] == s.drop_first()[j - 1]);
            }
        }
    }
}

proof fn lemma_insert_to_multiset(s: Seq<SrvRecord>, i: int, x: SrvRecord)
    requires
        0 <= i <= s.len(),
    ensures
        s.insert(i, x).to_multiset() =~= s.to_multiset().insert(x),
{
    let t = s.insert(i, x);
    assert(t.remove(i) =~= s);
    assert(t.contains(x)) by {
        assert(t[i] == x);
    }
    let m = t.to_multiset();
    assert(m.count(x) > 0);
    assert(m =~= m.remove(x).insert(x));
}

/// Reorders `records` by ascending priority.
pub fn sort_by_priority(records: Vec<SrvRecord>) -> (r: Vec<SrvRecord>)
    ensures
        sorted_by_priority(r@),
        r@.to_multiset() == records@.to_multiset(),
{
    let mut input = records;
    let mut sorted: Vec<SrvRecord> = Vec::new();
    while input.len() > 0
        invariant
            sorted_by_priority(sorted@),
            input@.to_multiset().add(sorted@.to_multiset()) == records@.to_multiset(),
        decreases input@.len(),
    {
        let ghost before = input@;
        let x = input.pop().unwrap();
        assert(before =~= input@.push(x));
        let mut pos: usize = 0;
        while pos < sorted.len() && sorted[pos].priority <= x.priority
            invariant
                pos <= sorted@.len(),
                forall|j: int| 0 <= j < pos ==> #[trigger] sorted@[j].priority <= x.priority,
            decreases sorted@.len() - pos,
        {
            pos = pos + 1;
        }
        let ghost prev = sorted@;
        sorted.insert(pos, x);
        proof {
            lemma_insert_to_multiset(prev, pos as int, x);
            assert(input@.push(x).to_multiset() =~= input@.to_multiset().insert(x));
            assert forall|i: int, j: int| 0 <= i < j < sorted@.len() implies sorted@[i].priority
                <= sorted@[j].priority by {
                if pos < prev.len() {
                    assert(x.priority < prev[pos as int].priority);
                }
            }
            assert(input@.to_multiset().add(sorted@.to_multiset()) =~= records@.to_multiset());
        }
    }
    assert(input@.to_multiset() =~= Multiset::empty());
    assert(sorted@.to_multiset() =~= records@.to_multiset());
    sorted
}

/// A group pulled off sorted records leaves sorted records, all of a higher
/// priority than the group's.
proof fn lemma_next_group(rest: Seq<SrvRecord>, group: Seq<SrvRecord>, after: Seq<SrvRecord>)
    requires
        sorted_by_priority(rest),
        rest.len() > 0,
        group == rest.subrange(0, run_len(rest, rest[0].priority) as int),
        after == rest.subrange(run_len(rest, rest[0].priority) as int, rest.len() as int),
    ensures
        sorted_by_priority(after),
        group + after == rest,
        forall|i: int, j: int|
            0 <= i < group.len() && 0 <= j < group.len() ==> group[i].priority == group[j].priority,
        forall|i: int, j: int|
            0 <= i < group.len() && 0 <= j < after.len() ==> group[i].priority < after[j].priority,
{
    let k = run_len(rest, rest[0].priority) as int;
    lemma_run_len_bound(rest, rest[0].priority);
    assert(group + after =~= rest);
    assert forall|i: int, j: int|
        0 <= i < group.len() && 0 <= j < after.len() implies #[trigger] group[i].priority
        < #[trigger] after[j].priority by {
        assert(group[i] == rest[i]);
        assert(after[j] == rest[j + k]);
        assert(rest[i].priority == rest[0].priority);
        assert(rest[k].priority >= rest[0].priority);
    }
    assert forall|i: int, j: int|
        0 <= i < group.len() && 0 <= j < group.len() implies #[trigger] group[i].priority
        == #[trigger] group[j].priority by {
        assert(group[i] == rest[i]);
        assert(group[j] == rest[j]);
    }
    assert forall|a: int, b: int| 0 <= a < b < after.len() implies after[a].priority
        <= after[b].priority by {
        assert(after[a] == rest[a + k]);
        assert(after[b] == rest[b + k]);
    }
}

/// Yields every record once: priority groups in ascending order, each drawn by
/// weight before the next group starts.
pub struct PrioritySrvLoader {
    inner_maps: PriorityGroupIter,
    current_map: Option<WeightedSrvMap>,
}

impl PrioritySrvLoader {
    /// Records of the group being drawn from, empty when there is none.
    pub closed spec fn current(&self) -> Seq<SrvRecord> {
        match self.current_map {
            Some(m) => m@,
            None => Seq::empty(),
        }
    }

    /// Records not yet yielded.
    pub closed spec fn pending(&self) -> Seq<SrvRecord> {
        self.current() + self.inner_maps.rest()
    }

    /// The group the next record is drawn from: the current one while it has
    /// records, else the leading run of equal priority among the rest.
    pub closed spec fn drawing_group(&self) -> Seq<SrvRecord> {
        let rest = self.inner_maps.rest();
        if self.current().len() > 0 {
            self.current()
        } else {
            rest.subrange(0, run_len(rest, rest[0].priority) as int)
        }
    }

    pub closed spec fn wf(&self) -> bool {
        let cur = self.current();
        let rest = self.inner_maps.rest();
        &&& sorted_by_priority(rest)
        &&& forall|i: int, j: int|
            0 <= i < cur.len() && 0 <= j < cur.len() ==> cur[i].priority == cur[j].priority
        &&& forall|i: int, j: int|
            0 <= i < cur.len() && 0 <= j < rest.len() ==> cur[i].priority < rest[j].priority
    }

    /// A loader over `records`, in any order.
    pub fn new(records: Vec<SrvRecord>) -> (r: Self)
        ensures
            r.wf(),
            r.pending().to_multiset() == records@.to_multiset(),
    {
        let sorted = sort_by_priority(records);
        let r = PrioritySrvLoader { inner_maps: sorted.priority_groupings(), current_map: None };
        assert(r.pending() =~= sorted@);
        r
    }

    /// The next candidate: a record of the lowest priority still pending, drawn
    /// by weight; `None` once every record was yielded.
    pub fn next(&mut self) -> (r: Option<SrvRecord>)
        requires
            old(self).wf(),
        ensures
            final(self).wf(),
            r is None <==> old(self).pending().len() == 0,
            r is None ==> final(self).pending() == old(self).pending(),
            r matches Some(x) ==> exists|i: int|
                0 <= i < old(self).pending().len() && x == old(self).pending()[i]
                    && final(self).pending() == old(self).pending().remove(i),
            r matches Some(x) ==> forall|j: int|
                0 <= j < final(self).pending().len() ==> x.priority
                    <= #[trigger] final(self).pending()[j].priority,
            r matches Some(x) ==> exists|v: int, i: int|
                0 <= v <= weight_sum(old(self).drawing_group()) && is_pick(
                    old(self).drawing_group(),
                    v,
                    i,
                ) && x == old(self).drawing_group()[i],
    {
        loop
            invariant
                self.wf(),
                self.pending() == old(self).pending(),
                self.drawing_group() == old(self).drawing_group(),
            decreases 2 * self.inner_maps.rest().len() + if self.current_map is Some {
                1int
            } else {
                0int
            },
        {
            match self.current_map.take() {
                Some(mut current) => {
                    let ghost cur = current@;
                    let ghost rest = self.inner_maps.rest();
                    match current.next() {
                        Some(record) => {
                            self.current_map = Some(current);
                            proof {
                                let i = choose|i: int|
                                    0 <= i < cur.len() && record == cur[i] && current@ == cur.remove(i);
                                assert(self.pending() =~= old(self).pending().remove(i));
                                assert forall|j: int|
                                    0 <= j < self.pending().len() implies record.priority
                                    <= #[trigger] self.pending()[j].priority by {
                                    if j >= current@.len() {
                                        assert(self.pending()[j] == rest[j - current@.len()]);
                                    } else if j < i {
                                        assert(self.pending()[j] == cur[j]);
                                    } else {
                                        assert(self.pending()[j] == cur[j + 1]);
                                    }
                                }
                            }
                            return Some(record);
                        },
                        None => {
                            assert(self.pending() =~= old(self).pending());
                            assert(self.drawing_group() == old(self).drawing_group());
                        },
                    }
                },
                None => {
                    let ghost rest = self.inner_maps.rest();
                    match self.inner_maps.next() {
                        Some(m) => {
                            self.current_map = Some(m);
                            proof {
                                lemma_next_group(rest, m@, self.inner_maps.rest());
                                lemma_run_len_bound(rest, rest[0].priority);
                                assert(self.pending() =~= rest);
                            }
                        },
                        None => {
                            return None;
                        },
                    }
                },
            }
        }
    }

    /// Drains the loader: the whole candidate order, as a list.
    pub fn collect_candidates(self) -> (r: Vec<SrvRecord>)
        requires
            self.wf(),
        ensures
            r@.to_multiset() == self.pending().to_multiset(),
            sorted_by_priority(r@),
    {
        let ghost all = self.pending();
        let mut loader = self;
        let mut out: Vec<SrvRecord> = Vec::new();
        loop
            invariant
                loader.wf(),
                out@.to_multiset().add(loader.pending().to_multiset()) == all.to_multiset(),
                sorted_by_priority(out@),
                forall|i: int, j: int|
                    0 <= i < out@.len() && 0 <= j < loader.pending().len() ==> #[trigger] out@[i].priority
                        <= #[trigger] loader.pending()[j].priority,
            ensures
                loader.pending().len() == 0,
            decreases loader.pending().len(),
        {
            match loader.next() {
                Some(record) => {
                    assert(out@.push(record).to_multiset() =~= out@.to_multiset().insert(record));
                    out.push(record);
                },
                None => {
                    break ;
                },
            }
        }
        assert(loader.pending().to_multiset() =~= Multiset::empty());
        assert(out@.to_multiset() =~= all.to_multiset());
        out
    }
}

/// Turns a set of records into its priority groups.
pub trait IntoPriorityGroupIter: Sized {
    /// The records the groups are made of, in the order they are taken.
    spec fn grouped_records(&self) -> Seq<SrvRecord>;

    fn priority_groupings(self) -> (r: PriorityGroupIter)
        ensures
            r.rest() == self.grouped_records(),
    ;
}

impl IntoPriorityGroupIter for Vec<SrvRecord> {
    open spec fn grouped_records(&self) -> Seq<SrvRecord> {
        self@
    }

    fn priority_groupings(self) -> (r: PriorityGroupIter) {
        PriorityGroupIter::new(self)
    }
}

/// Turns a set of records into a prioritised, weighted candidate order.
pub trait IntoPriorityResolver: Sized {
    /// The records the candidates are drawn from.
    spec fn candidate_records(&self) -> Seq<SrvRecord>;

    fn priority_resolver(self) -> (r: PrioritySrvLoader)
        ensures
            r.wf(),
            r.pending().to_multiset() == self.candidate_records().to_multiset(),
    ;
}

impl IntoPriorityResolver for Vec<SrvRecord> {
    open spec fn candidate_records(&self) -> Seq<SrvRecord> {
        self@
    }

    fn priority_resolver(self) -> (r: PrioritySrvLoader) {
        PrioritySrvLoader::new(self)
    }
}

} // verus!
