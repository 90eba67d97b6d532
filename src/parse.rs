//! The dump framing: records `<name>$<payload>%`, where each payload is a
//! JSON object of counter names to unsigned integers.

use vstd::prelude::*;
use vstd::hash_map::StringHashMap;
use vstd::string::StrSliceExecFns;
use crate::Beverage;
use serde_json::Error as JsonError;

verus! {

#[verifier::external_type_specification]
#[verifier::external_body]
pub struct ExJsonError(JsonError);

/// Why a dump was rejected.
#[derive(Debug)]
pub enum Error {
    /// A record's payload is not an object of string keys to unsigned integers.
    PayloadDecode(JsonError),
    /// The delimiter stood where the grammar does not allow it:
    /// `%` while reading a name, or `$` while reading a payload.
    UnexpectedDelimiter(char),
    /// The device stopped sending in the middle of a dump.
    CommunicationTimeout,
}

/// The counters that the JSON text `text` describes, or `None` where it
/// is not an object of string keys to integers that fit a `usize`.
pub uninterp spec fn json_counts(text: Seq<char>) -> Option<Map<Seq<char>, usize>>;

/// `items` lists the counters `m`: one pair per key, each with its count.
pub open spec fn lists_counts(items: Seq<(Seq<char>, usize)>, m: Map<Seq<char>, usize>) -> bool {
    &&& forall|i: int| 0 <= i < items.len() ==> #[trigger] m.contains_key(items[i].0) && m[items[i].0] == items[i].1
    &&& forall|i: int, j: int| 0 <= i < j < items.len() ==> #[trigger] items[i].0 != #[trigger] items[j].0
    &&& forall|k: Seq<char>| #[trigger] m.contains_key(k) ==> exists|i: int| 0 <= i < items.len() && #[trigger] items[i].0 == k
}

pub open spec fn pair_views(pairs: Seq<(String, usize)>) -> Seq<(Seq<char>, usize)> {
    pairs.map_values(|p: (String, usize)| (p.0@, p.1))
}

pub open spec fn beverage_views(items: Seq<Beverage>) -> Seq<(Seq<char>, usize)> {
    items.map_values(|b: Beverage| (b.name@, b.count))
}

/// Relies on serde_json::from_str into a `HashMap<String, usize>`: it succeeds
/// exactly on the texts that hold such an object, the object depends on the
/// text alone, and the map holds each key once. The pairs come in the map's order.
#[verifier::external_body]
fn decode_counts(src: &str) -> (r: Result<Vec<(String, usize)>, JsonError>)
    ensures
        match r {
            Ok(pairs) => json_counts(src@) is Some && lists_counts(pair_views(pairs@), json_counts(src@)->0),
            Err(_) => json_counts(src@) is None,
        },
{
    serde_json::from_str::<std::collections::HashMap<String, usize>>(src).map(|m| m.into_iter().collect())
}

/// Decodes one payload into its counters, in no particular order.
pub fn parse_dict(src: &str) -> (r: Result<Vec<Beverage>, Error>)
    ensures
        match json_counts(src@) {
            Some(m) => r is Ok && lists_counts(beverage_views(r->Ok_0@), m),
            None => r matches Err(Error::PayloadDecode(_)),
        },
{
    match decode_counts(src) {
        Err(e) => Err(Error::PayloadDecode(e)),
        Ok(pairs) => {
            let mut out: Vec<Beverage> = Vec::new();
            let mut i: usize = 0;
            while i < pairs.len()
                invariant
                    i <= pairs.len(),
                    out.len() == i,
                    forall|j: int| 0 <= j < i ==> out@[j].name@ == pairs@[j].0@ && out@[j].count == pairs@[j].1,
                decreases pairs.len() - i,
            {
                out.push(Beverage::new(pairs[i].0.clone(), pairs[i].1));
                i = i + 1;
            }
            assert(beverage_views(out@) =~= pair_views(pairs@));
            Ok(out)
        },
    }
}

/// The decoded dump: for each group name, its counters.
pub struct Table {
    groups: StringHashMap<Vec<Beverage>>,
    names: Vec<String>,
    model: Ghost<Map<Seq<char>, Map<Seq<char>, usize>>>,
}

impl View for Table {
    type V = Map<Seq<char>, Map<Seq<char>, usize>>;

    closed spec fn view(&self) -> Self::V {
        self.model@
    }
}

impl Table {
    /// The groups hold the counters of the model, and `names` lists each group once.
    pub closed spec fn wf(&self) -> bool {
        &&& self.groups@.dom() == self@.dom()
        &&& forall|k: Seq<char>| #[trigger] self@.contains_key(k) ==> lists_counts(beverage_views(self.groups@[k]@), self@[k])
        &&& forall|i: int| 0 <= i < self.names@.len() ==> #[trigger] self@.contains_key(self.names@[i]@)
        &&& forall|i: int, j: int| 0 <= i < j < self.names@.len() ==> #[trigger] self.names@[i]@ != #[trigger] self.names@[j]@
        &&& forall|k: Seq<char>| #[trigger] self@.contains_key(k) ==> exists|i: int| 0 <= i < self.names@.len() && #[trigger] self.names@[i]@ == k
    }

    pub fn empty() -> (r: Table)
        ensures
            r.wf(),
            r@ == Map::<Seq<char>, Map<Seq<char>, usize>>::empty(),
    {
        Table { groups: StringHashMap::new(), names: Vec::new(), model: Ghost(Map::empty()) }
    }

    /// Sets the counters of the group `name`, replacing those it had.
    fn insert(&mut self, name: String, items: Vec<Beverage>, Ghost(counts): Ghost<Map<Seq<char>, usize>>)
        requires
            old(self).wf(),
            lists_counts(beverage_views(items@), counts),
        ensures
            final(self).wf(),
            final(self)@ == old(self)@.insert(name@, counts),
    {
        if !self.groups.contains_key(name.as_str()) {
            self.names.push(name.clone());
            assert(self.names@[self.names@.len() - 1]@ == name@);
        }
        self.groups.insert(name, items);
        self.model = Ghost(self.model@.insert(name@, counts));
        assert forall|k: Seq<char>| #[trigger] self@.contains_key(k) implies exists|i: int| 0 <= i < self.names@.len() && #[trigger] self.names@[i]@ == k by {
            if k != name@ {
                let i = choose|i: int| 0 <= i < old(self).names@.len() && #[trigger] old(self).names@[i]@ == k;
                assert(self.names@[i]@ == k);
            } else if old(self)@.contains_key(k) {
                let i = choose|i: int| 0 <= i < old(self).names@.len() && #[trigger] old(self).names@[i]@ == k;
                assert(self.names@[i]@ == k);
            } else {
                assert(self.names@[self.names@.len() - 1]@ == k);
            }
        }
        assert(self.groups@.dom() =~= self@.dom());
    }

    /// The number of groups.
    pub fn len(&self) -> (r: usize)
        requires
            self.wf(),
        ensures
            r == self@.len(),
    {
        broadcast use vstd::hash_map::axiom_string_hash_map_spec_len;
        self.groups.len()
    }

    /// The counters of the group `name`, in no particular order.
    pub fn get(&self, name: &str) -> (r: Option<&Vec<Beverage>>)
        requires
            self.wf(),
        ensures
            match r {
                Some(items) => self@.contains_key(name@) && lists_counts(beverage_views(items@), self@[name@])
                    && items@ == self.items_of(name@),
                None => !self@.contains_key(name@),
            },
    {
        self.groups.get(name)
    }

    /// The counters kept for the group `k`, as `get` hands them out.
    pub closed spec fn items_of(&self, k: Seq<char>) -> Seq<Beverage> {
        self.groups@[k]@
    }

    /// The group names, as `names` hands them out.
    pub closed spec fn name_list(&self) -> Seq<String> {
        self.names@
    }

    /// The sum of all counts of all groups.
    pub open spec fn total_spec(&self) -> int {
        names_total(*self, self.name_list())
    }

    /// The sum of all counts of all groups, or `None` where it does not fit a `usize`.
    pub fn total_count(&self) -> (r: Option<usize>)
        requires
            self.wf(),
        ensures
            match r {
                Some(x) => x == self.total_spec(),
                None => self.total_spec() > usize::MAX,
            },
    {
        let mut total: usize = 0;
        let mut i: usize = 0;
        while i < self.names.len()
            invariant
                self.wf(),
                i <= self.names@.len(),
                total == names_total(*self, self.names@.subrange(0, i as int)),
            decreases self.names@.len() - i,
        {
            let ghost before = total as int;
            assert(self@.contains_key(self.names@[i as int]@));
            let items = self.groups.get(self.names[i].as_str()).unwrap();
            let mut j: usize = 0;
            while j < items.len()
                invariant
                    i < self.names@.len(),
                    items@ == self.items_of(self.names@[i as int]@),
                    before == names_total(*self, self.names@.subrange(0, i as int)),
                    j <= items@.len(),
                    total == before + items_total(items@.subrange(0, j as int)),
                decreases items@.len() - j,
            {
                assert(items@.subrange(0, j + 1).drop_last() =~= items@.subrange(0, j as int));
                match total.checked_add(items[j].count) {
                    Some(x) => total = x,
                    None => {
                        proof {
                            lemma_items_total_prefix(items@, j + 1);
                            let ns = self.names@.subrange(0, i + 1);
                            assert(ns.drop_last() =~= self.names@.subrange(0, i as int));
                            lemma_names_total_prefix(*self, self.names@, i + 1);
                        }
                        return None;
                    },
                }
                j = j + 1;
            }
            assert(items@.subrange(0, items@.len() as int) =~= items@);
            assert(self.names@.subrange(0, i + 1).drop_last() =~= self.names@.subrange(0, i as int));
            i = i + 1;
        }
        assert(self.names@.subrange(0, self.names@.len() as int) =~= self.names@);
        Some(total)
    }

    /// The group names, each once, in the order in which they first came.
    pub fn names(&self) -> (r: &Vec<String>)
        requires
            self.wf(),
        ensures
            r@ == self.name_list(),
            forall|i: int| 0 <= i < r@.len() ==> #[trigger] self@.contains_key(r@[i]@),
            forall|i: int, j: int| 0 <= i < j < r@.len() ==> #[trigger] r@[i]@ != #[trigger] r@[j]@,
            forall|k: Seq<char>| #[trigger] self@.contains_key(k) ==> exists|i: int| 0 <= i < r@.len() && #[trigger] r@[i]@ == k,
    {
        &self.names
    }
}

/// The sum of the counts of `items`.
pub open spec fn items_total(items: Seq<Beverage>) -> int
    decreases items.len(),
{
    if items.len() == 0 {
        0
    } else {
        items_total(items.drop_last()) + items.last().count
    }
}

/// The sum of the counts of the groups `names` of `t`.
pub open spec fn names_total(t: Table, names: Seq<String>) -> int
    decreases names.len(),
{
    if names.len() == 0 {
        0
    } else {
        names_total(t, names.drop_last()) + items_total(t.items_of(names.last()@))
    }
}

proof fn lemma_items_total_prefix(items: Seq<Beverage>, k: int)
    requires
        0 <= k <= items.len(),
    ensures
        0 <= items_total(items.subrange(0, k)) <= items_total(items),
    decreases items.len(),
{
    if items.len() > 0 {
        if k == items.len() {
            assert(items.subrange(0, k) =~= items);
            lemma_items_total_prefix(items.drop_last(), k - 1);
            assert(items.drop_last().subrange(0, k - 1) =~= items.drop_last());
        } else {
            lemma_items_total_prefix(items.drop_last(), k);
            assert(items.drop_last().subrange(0, k) =~= items.subrange(0, k));
        }
    }
}

proof fn lemma_names_total_prefix(t: Table, names: Seq<String>, k: int)
    requires
        0 <= k <= names.len(),
    ensures
        0 <= names_total(t, names.subrange(0, k)) <= names_total(t, names),
    decreases names.len(),
{
    if names.len() > 0 {
        lemma_items_total_prefix(t.items_of(names.last()@), 0);
        if k == names.len() {
            assert(names.subrange(0, k) =~= names);
            lemma_names_total_prefix(t, names.drop_last(), k - 1);
            assert(names.drop_last().subrange(0, k - 1) =~= names.drop_last());
        } else {
            lemma_names_total_prefix(t, names.drop_last(), k);
            assert(names.drop_last().subrange(0, k) =~= names.subrange(0, k));
        }
    }
}

/// Where the decoder stands after a prefix of the dump.
pub struct Scan {
    /// Reading a name (else a payload).
    pub in_name: bool,
    /// What was read since the last delimiter.
    pub buf: Seq<char>,
    /// The name of the record whose payload is being read.
    pub name: Seq<char>,
    /// The records closed so far; a later record of a name replaces an earlier one.
    pub table: Map<Seq<char>, Map<Seq<char>, usize>>,
}

/// Why a dump is rejected, in the model.
pub enum Fault {
    Delimiter(char),
    Payload,
}

pub open spec fn scan_start() -> Scan {
    Scan { in_name: true, buf: Seq::empty(), name: Seq::empty(), table: Map::empty() }
}

/// The decoder's step on the character `c`.
pub open spec fn scan_step(st: Scan, c: char) -> Result<Scan, Fault> {
    if c == '%' {
        if st.in_name {
            Err(Fault::Delimiter('%'))
        } else {
            match json_counts(st.buf) {
                Some(m) => Ok(Scan { in_name: true, buf: Seq::empty(), name: Seq::empty(), table: st.table.insert(st.name, m) }),
                None => Err(Fault::Payload),
            }
        }
    } else if c == '$' {
        if st.in_name {
            Ok(Scan { in_name: false, buf: Seq::empty(), name: st.buf, table: st.table })
        } else {
            Err(Fault::Delimiter('$'))
        }
    } else {
        Ok(Scan { in_name: st.in_name, buf: st.buf.push(c), name: st.name, table: st.table })
    }
}

/// The decoder's state after reading all of `s`, or the first fault.
pub open spec fn scan(s: Seq<char>) -> Result<Scan, Fault>
    decreases s.len(),
{
    if s.len() == 0 {
        Ok(scan_start())
    } else {
        match scan(s.drop_last()) {
            Ok(st) => scan_step(st, s.last()),
            Err(f) => Err(f),
        }
    }
}

/// The table that a dump decodes to. What follows the last closed record
/// (the trailing `$` of the device, or a cut-off record) is dropped.
pub open spec fn decode(s: Seq<char>) -> Result<Map<Seq<char>, Map<Seq<char>, usize>>, Fault> {
    match scan(s) {
        Ok(st) => Ok(st.table),
        Err(f) => Err(f),
    }
}

/// `r` is what `parse` returns on a dump that decodes to `d`.
pub open spec fn parse_result(r: Result<Table, Error>, d: Result<Map<Seq<char>, Map<Seq<char>, usize>>, Fault>) -> bool {
    match d {
        Ok(m) => r is Ok && r->Ok_0.wf() && r->Ok_0@ == m,
        Err(Fault::Delimiter(c)) => r is Err && r->Err_0 == Error::UnexpectedDelimiter(c),
        Err(Fault::Payload) => r matches Err(Error::PayloadDecode(_)),
    }
}

proof fn lemma_fault_sticks(s: Seq<char>, k: int, f: Fault)
    requires
        0 <= k <= s.len(),
        scan(s.subrange(0, k)) == Err::<Scan, Fault>(f),
    ensures
        scan(s) == Err::<Scan, Fault>(f),
    decreases s.len() - k,
{
    if k < s.len() {
        assert(s.subrange(0, k + 1).drop_last() =~= s.subrange(0, k));
        lemma_fault_sticks(s, k + 1, f);
    } else {
        assert(s.subrange(0, k) =~= s);
    }
}

/// Decodes a dump into its table: each record `<name>$<payload>%` sets the
/// counters of `name` to those of its JSON payload.
pub fn parse(src: &str) -> (r: Result<Table, Error>)
    ensures
        parse_result(r, decode(src@)),
{
    let n = src.unicode_len();
    let mut in_name = true;
    let mut start: usize = 0;
    let mut name = String::new();
    let mut table = Table::empty();
    let mut i: usize = 0;
    assert(src@.subrange(0, 0) =~= Seq::<char>::empty());
    assert(src@.subrange(0, 0) =~= src@.subrange(0, 0));
    while i < n
        invariant
            n == src@.len(),
            start <= i <= n,
            table.wf(),
            scan(src@.subrange(0, i as int)) == Ok::<Scan, Fault>(Scan {
                in_name,
                buf: src@.subrange(start as int, i as int),
                name: name@,
                table: table@,
            }),
        decreases n - i,
    {
        let c = src.get_char(i);
        assert(src@.subrange(0, i + 1).drop_last() =~= src@.subrange(0, i as int));
        if c == '%' {
            if in_name {
                proof { lemma_fault_sticks(src@, i + 1, Fault::Delimiter('%')); }
                return Err(Error::UnexpectedDelimiter('%'));
            }
            let payload = src.substring_char(start, i);
            match parse_dict(payload) {
                Ok(items) => {
                    let ghost counts = json_counts(payload@)->0;
                    table.insert(name, items, Ghost(counts));
                    name = String::new();
                    in_name = true;
                },
                Err(e) => {
                    proof { lemma_fault_sticks(src@, i + 1, Fault::Payload); }
                    return Err(e);
                },
            }
            start = i + 1;
        } else if c == '$' {
            if !in_name {
                proof { lemma_fault_sticks(src@, i + 1, Fault::Delimiter('$')); }
                return Err(Error::UnexpectedDelimiter('$'));
            }
            name = src.substring_char(start, i).to_owned();
            in_name = false;
            start = i + 1;
        } else {
            assert(src@.subrange(start as int, i + 1) =~= src@.subrange(start as int, i as int).push(c));
        }
        i = i + 1;
        assert(src@.subrange(i as int, i as int) =~= Seq::<char>::empty());
    }
    assert(src@.subrange(0, n as int) =~= src@);
    Ok(table)
}

/// No record delimiter occurs in `t`.
pub open spec fn free_of_delimiters(t: Seq<char>) -> bool {
    forall|i: int| 0 <= i < t.len() ==> #[trigger] t[i] != '$' && t[i] != '%'
}

/// The text of the records `names[i]$payloads[i]%`, in order.
pub open spec fn records(names: Seq<Seq<char>>, payloads: Seq<Seq<char>>) -> Seq<char>
    decreases names.len(),
{
    if names.len() == 0 || payloads.len() == 0 {
        Seq::empty()
    } else {
        records(names.drop_last(), payloads.drop_last()) + names.last() + seq!['$'] + payloads.last() + seq!['%']
    }
}

/// The table that the records `names[i]$payloads[i]%` stand for; a later
/// record of a name replaces an earlier one.
pub open spec fn records_table(names: Seq<Seq<char>>, payloads: Seq<Seq<char>>) -> Map<Seq<char>, Map<Seq<char>, usize>>
    decreases names.len(),
{
    if names.len() == 0 || payloads.len() == 0 {
        Map::empty()
    } else {
        records_table(names.drop_last(), payloads.drop_last()).insert(names.last(), json_counts(payloads.last())->0)
    }
}

proof fn lemma_scan_push(s: Seq<char>, c: char)
    ensures
        scan(s.push(c)) == match scan(s) {
            Ok(st) => scan_step(st, c),
            Err(f) => Err(f),
        },
{
    assert(s.push(c).drop_last() =~= s);
}

proof fn lemma_scan_plain(s: Seq<char>, t: Seq<char>, st: Scan)
    requires
        scan(s) == Ok::<Scan, Fault>(st),
        free_of_delimiters(t),
    ensures
        scan(s + t) == Ok::<Scan, Fault>(Scan { in_name: st.in_name, buf: st.buf + t, name: st.name, table: st.table }),
    decreases t.len(),
{
    if t.len() == 0 {
        assert(s + t =~= s);
        assert(st.buf + t =~= st.buf);
    } else {
        let u = t.drop_last();
        assert(free_of_delimiters(u));
        lemma_scan_plain(s, u, st);
        assert(s + t =~= (s + u).push(t.last()));
        lemma_scan_push(s + u, t.last());
        assert((st.buf + u).push(t.last()) =~= st.buf + t);
    }
}

proof fn lemma_records(names: Seq<Seq<char>>, payloads: Seq<Seq<char>>)
    requires
        names.len() == payloads.len(),
        forall|i: int| 0 <= i < names.len() ==> free_of_delimiters(#[trigger] names[i]),
        forall|i: int| 0 <= i < payloads.len() ==> free_of_delimiters(#[trigger] payloads[i]) && json_counts(payloads[i]) is Some,
    ensures
        scan(records(names, payloads)) == Ok::<Scan, Fault>(Scan {
            in_name: true,
            buf: Seq::empty(),
            name: Seq::empty(),
            table: records_table(names, payloads),
        }),
    decreases names.len(),
{
    if names.len() == 0 {
    } else {
        let earlier_names = names.drop_last();
        let earlier_payloads = payloads.drop_last();
        assert forall|i: int| 0 <= i < earlier_names.len() implies free_of_delimiters(#[trigger] earlier_names[i]) by {
            assert(earlier_names[i] == names[i]);
        }
        assert forall|i: int| 0 <= i < earlier_payloads.len() implies free_of_delimiters(#[trigger] earlier_payloads[i]) && json_counts(earlier_payloads[i]) is Some by {
            assert(earlier_payloads[i] == payloads[i]);
        }
        lemma_records(earlier_names, earlier_payloads);
        let s0 = records(earlier_names, earlier_payloads);
        let st0 = Scan { in_name: true, buf: Seq::empty(), name: Seq::empty(), table: records_table(earlier_names, earlier_payloads) };
        let name = names.last();
        let payload = payloads.last();
        assert(free_of_delimiters(name));
        assert(free_of_delimiters(payload));
        lemma_scan_plain(s0, name, st0);
        assert(Seq::<char>::empty() + name =~= name);
        let s1 = s0 + name;
        lemma_scan_push(s1, '$');
        let st2 = Scan { in_name: false, buf: Seq::empty(), name: name, table: st0.table };
        let s2 = s1.push('$');
        lemma_scan_plain(s2, payload, st2);
        assert(Seq::<char>::empty() + payload =~= payload);
        let s3 = s2 + payload;
        lemma_scan_push(s3, '%');
        assert(s3.push('%') =~= records(names, payloads));
    }
}

/// A dump of well-formed records, closed by the device's trailing `$` (which
/// opens a last record `last$` that never closes), decodes to exactly the
/// groups of the records, each with the counters of its payload.
pub proof fn law_well_formed_dump(names: Seq<Seq<char>>, payloads: Seq<Seq<char>>, last: Seq<char>)
    requires
        names.len() == payloads.len(),
        forall|i: int| 0 <= i < names.len() ==> free_of_delimiters(#[trigger] names[i]),
        forall|i: int| 0 <= i < payloads.len() ==> free_of_delimiters(#[trigger] payloads[i]) && json_counts(payloads[i]) is Some,
        free_of_delimiters(last),
    ensures
        decode(records(names, payloads) + last + seq!['$']) == Ok::<Map<Seq<char>, Map<Seq<char>, usize>>, Fault>(
            records_table(names, payloads),
        ),
{
    lemma_records(names, payloads);
    let s = records(names, payloads);
    let st = Scan { in_name: true, buf: Seq::empty(), name: Seq::empty(), table: records_table(names, payloads) };
    lemma_scan_plain(s, last, st);
    lemma_scan_push(s + last, '$');
    assert((s + last).push('$') =~= s + last + seq!['$']);
}

/// A `%` read while a name is being read rejects the dump, whatever follows.
pub proof fn law_percent_in_name(s: Seq<char>, rest: Seq<char>)
    requires
        scan(s) is Ok,
        scan(s)->Ok_0.in_name,
    ensures
        decode(s.push('%') + rest) == Err::<Map<Seq<char>, Map<Seq<char>, usize>>, Fault>(Fault::Delimiter('%')),
{
    lemma_scan_push(s, '%');
    let t = s.push('%') + rest;
    assert(t.subrange(0, s.len() as int + 1) =~= s.push('%'));
    lemma_fault_sticks(t, s.len() as int + 1, Fault::Delimiter('%'));
}

/// A `$` read while a payload is being read rejects the dump, whatever follows.
pub proof fn law_dollar_in_payload(s: Seq<char>, rest: Seq<char>)
    requires
        scan(s) is Ok,
        !scan(s)->Ok_0.in_name,
    ensures
        decode(s.push('$') + rest) == Err::<Map<Seq<char>, Map<Seq<char>, usize>>, Fault>(Fault::Delimiter('$')),
{
    lemma_scan_push(s, '$');
    let t = s.push('$') + rest;
    assert(t.subrange(0, s.len() as int + 1) =~= s.push('$'));
    lemma_fault_sticks(t, s.len() as int + 1, Fault::Delimiter('$'));
}

/// A record whose payload is not an object of names to counts rejects the
/// whole dump, whatever follows: no table comes out.
pub proof fn law_bad_payload(s: Seq<char>, rest: Seq<char>)
    requires
        scan(s) is Ok,
        !scan(s)->Ok_0.in_name,
        json_counts(scan(s)->Ok_0.buf) is None,
    ensures
        decode(s.push('%') + rest) == Err::<Map<Seq<char>, Map<Seq<char>, usize>>, Fault>(Fault::Payload),
        forall|r: Result<Table, Error>| parse_result(r, decode(s.push('%') + rest)) ==> r is Err,
{
    lemma_scan_push(s, '%');
    let t = s.push('%') + rest;
    assert(t.subrange(0, s.len() as int + 1) =~= s.push('%'));
    lemma_fault_sticks(t, s.len() as int + 1, Fault::Payload);
}

/// Decoding a dump twice gives the same outcome: the same table, or the same
/// kind of rejection.
pub proof fn law_parse_deterministic(src: Seq<char>, r1: Result<Table, Error>, r2: Result<Table, Error>)
    requires
        parse_result(r1, decode(src)),
        parse_result(r2, decode(src)),
    ensures
        r1 is Ok <==> r2 is Ok,
        r1 is Ok ==> r1->Ok_0@ == r2->Ok_0@,
        r1 matches Err(Error::UnexpectedDelimiter(_)) ==> r1 == r2,
        r1 matches Err(Error::PayloadDecode(_)) <==> r2 matches Err(Error::PayloadDecode(_)),
{
}

} // verus!
