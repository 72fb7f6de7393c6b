use vstd::prelude::*;
use crate::error::AgentError;
use crate::oid::{lemma_lt_irreflexive, lemma_lt_total, lemma_lt_transitive, oid_lt, OID};
use crate::text::{dec, render_signed, render_unsigned, signed_dec};

verus! {

/// The experimental branch under which this table lives.
pub const MIB_EXPERIMENTAL: [u16; 5] = [1, 3, 6, 1, 3];

/// The application's identifier within the experimental branch.
pub const MIB_ID: u16 = 2020;

/// Largest row number, and so the most objects one snapshot can hold.
pub const MAX_ROWS: usize = 65535;

/// The scalar kind that a record declares for its value.
#[derive(Debug, Clone, Copy, PartialEq, Eq, Structural)]
pub enum ValueType {
    Integer32,
    Unsigned32,
    Counter64,
    Text,
}

pub open spec fn kind_name(t: ValueType) -> Seq<char> {
    match t {
        ValueType::Integer32 => "Integer32"@,
        ValueType::Unsigned32 => "Unsigned32"@,
        ValueType::Counter64 => "Counter64"@,
        ValueType::Text => "STRING"@,
    }
}

impl ValueType {
    /// The name under which the kind is written in a reply.
    pub fn name(&self) -> (r: &'static str)
        ensures
            r@ == kind_name(*self),
    {
        match self {
            ValueType::Integer32 => "Integer32",
            ValueType::Unsigned32 => "Unsigned32",
            ValueType::Counter64 => "Counter64",
            ValueType::Text => "STRING",
        }
    }
}

/// Traffic counters of one queueing discipline.
#[derive(Debug, Clone, Copy, PartialEq, Eq, Structural)]
pub struct QdiscStats {
    pub bytes: u64,
    pub packets: u32,
    pub drops: u32,
    pub overlimits: u32,
    pub bps: u32,
    pub pps: u32,
    pub qlen: u32,
    pub backlog: u32,
}

/// An optional attribute reported for a queueing discipline.
#[derive(Debug)]
pub enum QdiscAttr {
    HwOffload(u8),
    Kind(String),
    Stats(QdiscStats),
    /// An attribute that the table does not show.
    Other,
}

/// One queueing discipline as the kernel reports it.
#[derive(Debug)]
pub struct Qdisc {
    pub index: i32,
    pub handle: u32,
    pub parent: u32,
    pub attrs: Vec<QdiscAttr>,
}

/// The mathematical form of a table record.
pub struct Record {
    pub oid: Seq<u16>,
    pub kind: ValueType,
    pub value: Seq<char>,
}

/// One scalar data point of the table, its value carried as text.
pub struct Entry {
    pub oid: OID,
    pub kind: ValueType,
    pub value: String,
}

impl View for Entry {
    type V = Record;

    open spec fn view(&self) -> Record {
        Record { oid: self.oid@, kind: self.kind, value: self.value@ }
    }
}

pub open spec fn records(v: Seq<Entry>) -> Seq<Record> {
    v.map_values(|e: Entry| e@)
}

/// Identifier shared by every row: the experimental branch, the application,
/// the table and its row entry.
pub open spec fn entry_prefix() -> Seq<u16> {
    seq![1u16, 3, 6, 1, 3, 2020, 1, 1]
}

pub open spec fn cell(col: u16, row: u16, kind: ValueType, value: Seq<char>) -> Record {
    Record { oid: entry_prefix().push(col).push(row), kind, value }
}

pub open spec fn stat_records(s: QdiscStats, row: u16) -> Seq<Record> {
    seq![
        cell(7, row, ValueType::Counter64, dec(s.bytes as nat)),
        cell(8, row, ValueType::Counter64, dec(s.packets as nat)),
        cell(9, row, ValueType::Counter64, dec(s.drops as nat)),
        cell(10, row, ValueType::Counter64, dec(s.overlimits as nat)),
        cell(11, row, ValueType::Integer32, dec(s.bps as nat)),
        cell(12, row, ValueType::Integer32, dec(s.pps as nat)),
        cell(13, row, ValueType::Integer32, dec(s.qlen as nat)),
        cell(14, row, ValueType::Integer32, dec(s.backlog as nat)),
    ]
}

pub open spec fn attr_records(a: QdiscAttr, row: u16) -> Seq<Record> {
    match a {
        QdiscAttr::HwOffload(b) => seq![cell(5, row, ValueType::Integer32, dec(b as nat))],
        QdiscAttr::Kind(k) => seq![cell(6, row, ValueType::Text, k@)],
        QdiscAttr::Stats(s) => stat_records(s, row),
        QdiscAttr::Other => Seq::<Record>::empty(),
    }
}

pub open spec fn attrs_records(attrs: Seq<QdiscAttr>, row: u16) -> Seq<Record>
    decreases attrs.len(),
{
    if attrs.len() == 0 {
        Seq::<Record>::empty()
    } else {
        attrs_records(attrs.drop_last(), row) + attr_records(attrs.last(), row)
    }
}

/// The records of one object: four header columns, then its attributes in
/// the order reported.
pub open spec fn row_records(q: Qdisc, row: u16) -> Seq<Record> {
    seq![
        cell(1, row, ValueType::Unsigned32, signed_dec(q.index as int)),
        cell(2, row, ValueType::Integer32, signed_dec(q.index as int)),
        cell(3, row, ValueType::Integer32, dec(q.handle as nat)),
        cell(4, row, ValueType::Integer32, dec(q.parent as nat)),
    ] + attrs_records(q.attrs@, row)
}

/// The records of all objects, rows numbered from 1 in the order reported.
pub open spec fn flatten(qs: Seq<Qdisc>) -> Seq<Record>
    decreases qs.len(),
{
    if qs.len() == 0 {
        Seq::<Record>::empty()
    } else {
        flatten(qs.drop_last()) + row_records(qs.last(), qs.len() as u16)
    }
}

pub open spec fn strictly_ascending(t: Seq<Record>) -> bool {
    forall|i: int, j: int| 0 <= i < j < t.len() ==> oid_lt(#[trigger] t[i].oid, #[trigger] t[j].oid)
}

pub open spec fn has_duplicate(t: Seq<Record>) -> bool {
    exists|i: int, j: int| 0 <= i < j < t.len() && #[trigger] t[i].oid == #[trigger] t[j].oid
}

/// `t` is a snapshot of `flat`: the same records, ascending by identifier.
pub open spec fn is_snapshot_of(t: Seq<Record>, flat: Seq<Record>) -> bool {
    &&& strictly_ascending(t)
    &&& t.len() == flat.len()
    &&& forall|r: Record| t.contains(r) <==> flat.contains(r)
}

fn entry_oid() -> (r: OID)
    ensures
        r@ == entry_prefix(),
{
    let mut v: Vec<u16> = Vec::new();
    v.push(MIB_EXPERIMENTAL[0]);
    v.push(MIB_EXPERIMENTAL[1]);
    v.push(MIB_EXPERIMENTAL[2]);
    v.push(MIB_EXPERIMENTAL[3]);
    v.push(MIB_EXPERIMENTAL[4]);
    v.push(MIB_ID);
    v.push(1);
    v.push(1);
    assert(v@ =~= entry_prefix());
    OID(v)
}

fn push_cell(
    entries: &mut Vec<Entry>,
    oid: &OID,
    col: u16,
    row: u16,
    kind: ValueType,
    value: String,
)
    requires
        oid@ == entry_prefix(),
    ensures
        records(final(entries)@) == records(old(entries)@).push(cell(col, row, kind, value@)),
{
    let e = Entry { oid: oid.append(col).append(row), kind, value };
    entries.push(e);
    assert(records(final(entries)@) =~= records(old(entries)@).push(cell(col, row, kind, value@)));
}

/// Appends the eight counter records of one object.
pub fn build_stat_entries(oid: &OID, table_index: u16, entries: &mut Vec<Entry>, stats: &QdiscStats)
    requires
        oid@ == entry_prefix(),
    ensures
        records(final(entries)@) == records(old(entries)@) + stat_records(*stats, table_index),
{
    let ghost start = records(entries@);
    push_cell(entries, oid, 7, table_index, ValueType::Counter64, render_unsigned(stats.bytes));
    push_cell(entries, oid, 8, table_index, ValueType::Counter64, render_unsigned(stats.packets as u64));
    push_cell(entries, oid, 9, table_index, ValueType::Counter64, render_unsigned(stats.drops as u64));
    push_cell(entries, oid, 10, table_index, ValueType::Counter64, render_unsigned(stats.overlimits as u64));
    push_cell(entries, oid, 11, table_index, ValueType::Integer32, render_unsigned(stats.bps as u64));
    push_cell(entries, oid, 12, table_index, ValueType::Integer32, render_unsigned(stats.pps as u64));
    push_cell(entries, oid, 13, table_index, ValueType::Integer32, render_unsigned(stats.qlen as u64));
    push_cell(entries, oid, 14, table_index, ValueType::Integer32, render_unsigned(stats.backlog as u64));
    assert(records(entries@) =~= start + stat_records(*stats, table_index));
}

/// Appends the records of one object as row `row`.
fn push_row(entries: &mut Vec<Entry>, oid: &OID, q: &Qdisc, row: u16)
    requires
        oid@ == entry_prefix(),
    ensures
        records(final(entries)@) == records(old(entries)@) + row_records(*q, row),
{
    let ghost start = records(entries@);
    push_cell(entries, oid, 1, row, ValueType::Unsigned32, render_signed(q.index as i64));
    push_cell(entries, oid, 2, row, ValueType::Integer32, render_signed(q.index as i64));
    push_cell(entries, oid, 3, row, ValueType::Integer32, render_unsigned(q.handle as u64));
    push_cell(entries, oid, 4, row, ValueType::Integer32, render_unsigned(q.parent as u64));
    let ghost head = records(entries@);
    assert(head =~= start + row_records(*q, row).subrange(0, 4));
    let mut i: usize = 0;
    while i < q.attrs.len()
        invariant
            oid@ == entry_prefix(),
            i <= q.attrs@.len(),
            records(entries@) == head + attrs_records(q.attrs@.subrange(0, i as int), row),
        decreases q.attrs@.len() - i,
    {
        let ghost before = records(entries@);
        match &q.attrs[i] {
            QdiscAttr::HwOffload(b) => {
                push_cell(entries, oid, 5, row, ValueType::Integer32, render_unsigned(*b as u64));
            },
            QdiscAttr::Kind(k) => {
                push_cell(entries, oid, 6, row, ValueType::Text, k.clone());
            },
            QdiscAttr::Stats(s) => {
                build_stat_entries(oid, row, entries, s);
            },
            QdiscAttr::Other => {},
        }
        proof {
            let w = q.attrs@.subrange(0, i + 1);
            assert(w.drop_last() =~= q.attrs@.subrange(0, i as int));
            assert(w.last() == q.attrs@[i as int]);
            assert(records(entries@) =~= before + attr_records(q.attrs@[i as int], row));
            assert(records(entries@) =~= head + attrs_records(w, row));
        }
        i += 1;
    }
    assert(q.attrs@.subrange(0, q.attrs@.len() as int) =~= q.attrs@);
    assert(records(entries@) =~= start + row_records(*q, row));
}

/// The records of all objects, in the order reported.
fn flatten_rows(qdiscs: &Vec<Qdisc>) -> (r: Vec<Entry>)
    requires
        qdiscs@.len() <= MAX_ROWS,
    ensures
        records(r@) == flatten(qdiscs@),
{
    let oid = entry_oid();
    let mut entries: Vec<Entry> = Vec::new();
    let mut i: usize = 0;
    assert(records(entries@) =~= flatten(qdiscs@.subrange(0, 0)));
    while i < qdiscs.len()
        invariant
            oid@ == entry_prefix(),
            i <= qdiscs@.len() <= MAX_ROWS,
            records(entries@) == flatten(qdiscs@.subrange(0, i as int)),
        decreases qdiscs@.len() - i,
    {
        push_row(&mut entries, &oid, &qdiscs[i], (i + 1) as u16);
        proof {
            let w = qdiscs@.subrange(0, i + 1);
            assert(w.drop_last() =~= qdiscs@.subrange(0, i as int));
            assert(w.last() == qdiscs@[i as int]);
        }
        i += 1;
    }
    assert(qdiscs@.subrange(0, qdiscs@.len() as int) =~= qdiscs@);
    entries
}


/// Moves the entries into ascending order of identifier, refusing entries
/// that share an identifier.
fn into_table(flat: Vec<Entry>) -> (r: Result<Vec<Entry>, AgentError>)
    ensures
        match r {
            Ok(t) => !has_duplicate(records(flat@)) && is_snapshot_of(records(t@), records(flat@)),
            Err(e) => has_duplicate(records(flat@)) && e == AgentError::DuplicateIdentifier,
        },
{
    let ghost orig = records(flat@);
    let ghost n = orig.len();
    let mut rest = flat;
    let mut table: Vec<Entry> = Vec::new();
    assert(orig.subrange(n as int, n as int) =~= Seq::<Record>::empty());
    assert(records(rest@) =~= orig.subrange(0, n as int));
    while rest.len() > 0
        invariant
            orig == records(flat@),
            n == orig.len(),
            rest@.len() <= n,
            records(rest@) == orig.subrange(0, rest@.len() as int),
            strictly_ascending(records(table@)),
            !has_duplicate(orig.subrange(rest@.len() as int, n as int)),
            table@.len() == n - rest@.len(),
            forall|x: Record|
                records(table@).contains(x) <==> orig.subrange(rest@.len() as int, n as int).contains(x),
        decreases rest@.len(),
    {
        let ghost k = rest@.len() as int;
        let ghost t0 = records(table@);
        let ghost old_rest = rest@;
        let x = rest.pop().unwrap();
        assert(x@ == orig[k - 1]) by {
            assert(x == old_rest[k - 1]);
            assert(records(old_rest)[k - 1] == old_rest[k - 1]@);
            assert(orig.subrange(0, k)[k - 1] == orig[k - 1]);
        }
        assert(records(rest@) =~= orig.subrange(0, k - 1));
        let mut p: usize = 0;
        while p < table.len() && table[p].oid.is_less(&x.oid)
            invariant
                p <= table@.len(),
                forall|q: int| 0 <= q < p ==> oid_lt(#[trigger] table@[q].oid@, x.oid@),
            decreases table@.len() - p,
        {
            p += 1;
        }
        if p < table.len() && table[p].oid.is_same(&x.oid) {
            proof {
                assert(t0.contains(t0[p as int]));
                let m = choose|m: int| 0 <= m < n - k && orig.subrange(k, n as int)[m] == t0[p as int];
                assert(orig[k - 1].oid == orig[k + m].oid);
                assert(has_duplicate(orig));
            }
            return Err(AgentError::DuplicateIdentifier);
        }
        proof {
            if p < table@.len() {
                lemma_lt_total(table@[p as int].oid@, x.oid@);
            }
            // x comes strictly before every entry from position p on
            assert forall|q: int| p <= q < t0.len() implies oid_lt(x.oid@, #[trigger] t0[q].oid) by {
                assert(oid_lt(x.oid@, t0[p as int].oid));
                if q > p {
                    lemma_lt_transitive(x.oid@, t0[p as int].oid, t0[q].oid);
                }
            }
        }
        table.insert(p, x);
        proof {
            let t1 = records(table@);
            assert(t1 =~= t0.insert(p as int, x@));
            t0.insert_ensures(p as int, x@);
            assert forall|i: int| p < i < t1.len() implies t1[i] == t0[i - 1] by {
                assert(t0.insert(p as int, x@)[(i - 1) + 1] == t0[i - 1]);
            }
            assert forall|i: int| 0 <= i < p implies t1[i] == t0[i] by {
                assert(t0.insert(p as int, x@)[i] == t0[i]);
            }
            assert forall|i: int, j: int| 0 <= i < j < t1.len() implies oid_lt(#[trigger] t1[i].oid, #[trigger] t1[j].oid) by {
                if i < p && j == p {
                    assert(t0[i] == table@[i]@);
                } else if i < p && j > p {
                    assert(oid_lt(t0[i].oid, x.oid@));
                    lemma_lt_transitive(t0[i].oid, x.oid@, t0[j - 1].oid);
                } else if i == p {
                } else if i > p {
                    assert(t1[i] == t0[i - 1] && t1[j] == t0[j - 1]);
                } else {
                    assert(t1[i] == t0[i] && t1[j] == t0[j]);
                }
            }
            let s0 = orig.subrange(k, n as int);
            let s1 = orig.subrange(k - 1, n as int);
            assert(s1 =~= seq![x@] + s0);
            assert forall|y: Record| t1.contains(y) <==> s1.contains(y) by {
                if t1.contains(y) {
                    let i = choose|i: int| 0 <= i < t1.len() && t1[i] == y;
                    if i < p {
                        assert(t0.contains(y));
                        let m = choose|m: int| 0 <= m < s0.len() && s0[m] == y;
                        assert(s1[m + 1] == y);
                    } else if i == p {
                        assert(s1[0] == y);
                    } else {
                        assert(t0[i - 1] == y);
                        assert(t0.contains(y));
                        let m = choose|m: int| 0 <= m < s0.len() && s0[m] == y;
                        assert(s1[m + 1] == y);
                    }
                }
                if s1.contains(y) {
                    let m = choose|m: int| 0 <= m < s1.len() && s1[m] == y;
                    if m == 0 {
                        assert(t1[p as int] == y);
                    } else {
                        assert(s0[m - 1] == y);
                        assert(s0.contains(y));
                        assert(t0.contains(y));
                        let i = choose|i: int| 0 <= i < t0.len() && t0[i] == y;
                        if i < p {
                            assert(t1[i] == y);
                        } else {
                            assert(t1[i + 1] == y);
                        }
                    }
                }
            }
            assert(!has_duplicate(s1)) by {
                if has_duplicate(s1) {
                    let (i, j) = choose|i: int, j: int| 0 <= i < j < s1.len() && #[trigger] s1[i].oid == #[trigger] s1[j].oid;
                    if i == 0 {
                        assert(s0.contains(s1[j]));
                        assert(t0.contains(s1[j]));
                        let q = choose|q: int| 0 <= q < t0.len() && t0[q] == s1[j];
                        lemma_lt_irreflexive(x.oid@);
                        if q < p {
                            assert(oid_lt(t0[q].oid, x.oid@));
                        } else {
                            assert(oid_lt(x.oid@, t0[q].oid));
                        }
                    } else {
                        assert(s0[i - 1].oid == s0[j - 1].oid);
                    }
                }
            }
        }
    }
    assert(orig.subrange(0, n as int) =~= orig);
    Ok(table)
}

/// Builds the snapshot table from the objects reported, in the order
/// reported: rows numbered from 1, records ascending by identifier.
pub fn build_results(qdiscs: &Vec<Qdisc>) -> (r: Result<Vec<Entry>, AgentError>)
    ensures
        qdiscs@.len() > MAX_ROWS ==> r == Err::<Vec<Entry>, AgentError>(AgentError::TooManyObjects),
        qdiscs@.len() <= MAX_ROWS ==> match r {
            Ok(t) => !has_duplicate(flatten(qdiscs@)) && is_snapshot_of(records(t@), flatten(qdiscs@)),
            Err(e) => has_duplicate(flatten(qdiscs@)) && e == AgentError::DuplicateIdentifier,
        },
{
    if qdiscs.len() > MAX_ROWS {
        return Err(AgentError::TooManyObjects);
    }
    let flat = flatten_rows(qdiscs);
    into_table(flat)
}


/// `i` is the first position of `t` whose identifier lies strictly after `id`.
pub open spec fn is_first_after(t: Seq<Record>, id: Seq<u16>, i: int) -> bool {
    &&& 0 <= i < t.len()
    &&& oid_lt(id, t[i].oid)
    &&& forall|j: int| 0 <= j < i ==> !oid_lt(id, #[trigger] t[j].oid)
}

/// The first entry whose identifier equals `oid`, if any.
pub fn find_oid<'a>(cache: &'a Vec<Entry>, oid: &OID) -> (r: Option<&'a Entry>)
    ensures
        match r {
            Some(e) => exists|i: int|
                0 <= i < cache@.len() && cache@[i] == *e && #[trigger] cache@[i].oid@ == oid@,
            None => forall|i: int| 0 <= i < cache@.len() ==> #[trigger] cache@[i].oid@ != oid@,
        },
{
    let mut i: usize = 0;
    while i < cache.len()
        invariant
            i <= cache@.len(),
            forall|j: int| 0 <= j < i ==> #[trigger] cache@[j].oid@ != oid@,
        decreases cache@.len() - i,
    {
        if cache[i].oid.is_same(oid) {
            return Some(&cache[i]);
        }
        i += 1;
    }
    None
}

/// The first entry whose identifier lies strictly after `oid`, if any.
pub fn find_next<'a>(cache: &'a Vec<Entry>, oid: &OID) -> (r: Option<&'a Entry>)
    ensures
        match r {
            Some(e) => exists|i: int|
                is_first_after(records(cache@), oid@, i) && #[trigger] cache@[i] == *e,
            None => forall|i: int| 0 <= i < cache@.len() ==> !oid_lt(oid@, #[trigger] cache@[i].oid@),
        },
{
    let mut i: usize = 0;
    while i < cache.len()
        invariant
            i <= cache@.len(),
            forall|j: int| 0 <= j < i ==> !oid_lt(oid@, #[trigger] cache@[j].oid@),
        decreases cache@.len() - i,
    {
        if oid.is_less(&cache[i].oid) {
            proof {
                let t = records(cache@);
                assert forall|j: int| 0 <= j < i implies !oid_lt(oid@, #[trigger] t[j].oid) by {
                    assert(t[j] == cache@[j]@);
                }
                assert(is_first_after(t, oid@, i as int));
            }
            return Some(&cache[i]);
        }
        i += 1;
    }
    None
}

/// In a strictly ascending table no two records share an identifier.
pub proof fn lemma_ascending_unique(t: Seq<Record>)
    requires
        strictly_ascending(t),
    ensures
        !has_duplicate(t),
        forall|i: int, j: int|
            0 <= i < t.len() && 0 <= j < t.len() && #[trigger] t[i].oid == #[trigger] t[j].oid
                ==> i == j,
{
    assert forall|i: int, j: int|
        0 <= i < t.len() && 0 <= j < t.len() && #[trigger] t[i].oid == #[trigger] t[j].oid
            implies i == j by {
        lemma_lt_irreflexive(t[i].oid);
    }
}

/// Exact lookup in a snapshot table yields the one record with the identifier
/// asked for: every record with that identifier is the one found.
pub proof fn lemma_exact_unique(t: Seq<Record>, id: Seq<u16>, e: Record)
    requires
        strictly_ascending(t),
        exists|i: int| 0 <= i < t.len() && t[i] == e && #[trigger] t[i].oid == id,
    ensures
        e.oid == id,
        forall|j: int| 0 <= j < t.len() && #[trigger] t[j].oid == id ==> t[j] == e,
{
    lemma_ascending_unique(t);
    let i = choose|i: int| 0 <= i < t.len() && t[i] == e && #[trigger] t[i].oid == id;
    assert forall|j: int| 0 <= j < t.len() && #[trigger] t[j].oid == id implies t[j] == e by {
        assert(t[i].oid == t[j].oid);
    }
}

/// In a snapshot table the successor found is the least of all records
/// strictly after `id`.
pub proof fn lemma_successor_least(t: Seq<Record>, id: Seq<u16>, i: int)
    requires
        strictly_ascending(t),
        is_first_after(t, id, i),
    ensures
        forall|j: int| 0 <= j < t.len() && oid_lt(id, #[trigger] t[j].oid) && j != i
            ==> oid_lt(t[i].oid, t[j].oid),
{
    assert forall|j: int| 0 <= j < t.len() && oid_lt(id, #[trigger] t[j].oid) && j != i
        implies oid_lt(t[i].oid, t[j].oid) by {
        if j < i {
            assert(!oid_lt(id, t[j].oid));
        }
    }
}

/// A walk starts at the first record: before any identifier of a table whose
/// identifiers are all non-empty comes the empty one, the least of all.
pub proof fn lemma_walk_start(t: Seq<Record>)
    requires
        t.len() > 0,
        forall|j: int| 0 <= j < t.len() ==> (#[trigger] t[j].oid).len() > 0,
    ensures
        is_first_after(t, Seq::<u16>::empty(), 0),
{
    assert(oid_lt(Seq::<u16>::empty(), t[0].oid));
}

/// A walk steps from each record to the next: the successor of the record at
/// position `i` is the record at `i + 1`, and after the last one there is none.
/// Starting from the empty identifier, the walk thus visits every record once,
/// in ascending order, and ends.
pub proof fn lemma_walk_step(t: Seq<Record>, i: int)
    requires
        strictly_ascending(t),
        0 <= i < t.len(),
    ensures
        i + 1 < t.len() ==> is_first_after(t, t[i].oid, i + 1),
        i + 1 == t.len() ==> forall|j: int| 0 <= j < t.len() ==> !oid_lt(t[i].oid, #[trigger] t[j].oid),
{
    assert forall|j: int| 0 <= j <= i implies !oid_lt(t[i].oid, #[trigger] t[j].oid) by {
        lemma_lt_irreflexive(t[i].oid);
        if j < i {
            lemma_lt_total(t[j].oid, t[i].oid);
        }
    }
}

} // verus!
