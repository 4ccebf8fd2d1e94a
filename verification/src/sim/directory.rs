//! Where strangers find channels: one record per name, and the first announcer
//! keeps it.

use vstd::prelude::*;
use vstd::utf8::encode_utf8;

use crate::messaging::ChannelName;
use crate::order::{bytes_before, lemma_lex_irreflexive, lemma_lex_transitive};
use crate::ports::ChannelRecord;
use crate::services::names::{lemma_text_total, text_before, texts_ascend};

verus! {

pub open spec fn record_names(records: Seq<ChannelRecord>) -> Seq<Seq<char>> {
    records.map_values(|r: ChannelRecord| r.name@)
}

/// The record under a name, if one was announced.
pub open spec fn found(records: Seq<ChannelRecord>, name: Seq<char>) -> Option<ChannelRecord> {
    if record_names(records).contains(name) {
        Some(records[record_names(records).index_of(name)])
    } else {
        None
    }
}

pub fn copy_record(r: &ChannelRecord) -> (c: ChannelRecord)
    ensures
        c == *r,
{
    ChannelRecord { id: r.id, name: r.name.clone(), founder: r.founder }
}

/// The records in the order of their names.
#[derive(Debug)]
pub struct InMemoryDirectory {
    records: Vec<ChannelRecord>,
}

impl View for InMemoryDirectory {
    type V = Seq<ChannelRecord>;

    closed spec fn view(&self) -> Seq<ChannelRecord> {
        self.records@
    }
}

proof fn lemma_found_at(records: Seq<ChannelRecord>, i: int)
    requires
        texts_ascend(record_names(records)),
        0 <= i < records.len(),
    ensures
        found(records, records[i].name@) == Some(records[i]),
{
    let texts = record_names(records);
    assert(texts[i] == records[i].name@);
    assert(texts.contains(texts[i]));
    let j = texts.index_of(texts[i]);
    assert(texts[j] == texts[i]);
    lemma_lex_irreflexive(encode_utf8(texts[i]));
    if i < j {
        assert(text_before(texts[i], texts[j]));
    } else if j < i {
        assert(text_before(texts[j], texts[i]));
    }
}

proof fn lemma_not_found(records: Seq<ChannelRecord>, name: Seq<char>)
    requires
        forall|i: int| 0 <= i < records.len() ==> (#[trigger] records[i]).name@ != name,
    ensures
        found(records, name) is None,
{
    let texts = record_names(records);
    if texts.contains(name) {
        let j = choose|j: int| 0 <= j < texts.len() && texts[j] == name;
        assert(records[j].name@ == name);
    }
}

impl InMemoryDirectory {
    /// No two records share a name, and they are listed by name.
    pub open spec fn wf(&self) -> bool {
        texts_ascend(record_names(self@))
    }

    pub fn new() -> (r: Self)
        ensures
            r.wf(),
            r@ == Seq::<ChannelRecord>::empty(),
    {
        InMemoryDirectory { records: Vec::new() }
    }

    fn find(&self, name: &ChannelName) -> (r: Option<usize>)
        requires
            self.wf(),
        ensures
            match r {
                Some(i) => i < self.records@.len() && found(self@, name@) == Some(
                    self.records@[i as int],
                ),
                None => found(self@, name@) is None,
            },
    {
        let mut i: usize = 0;
        while i < self.records.len()
            invariant
                i <= self.records@.len(),
                self.wf(),
                forall|j: int| 0 <= j < i ==> (#[trigger] self.records@[j]).name@ != name@,
            decreases self.records@.len() - i,
        {
            if self.records[i].name.same(name) {
                proof {
                    lemma_found_at(self@, i as int);
                }
                return Some(i);
            }
            i = i + 1;
        }
        proof {
            lemma_not_found(self@, name@);
        }
        None
    }

    /// Announces a channel. A name that was announced before keeps its record.
    pub fn announce_channel(&mut self, record: ChannelRecord)
        requires
            old(self).wf(),
        ensures
            final(self).wf(),
            match found(old(self)@, record.name@) {
                Some(_) => final(self)@ == old(self)@,
                None => exists|i: int|
                    0 <= i <= old(self)@.len() && final(self)@ == #[trigger] old(self)@.insert(
                        i,
                        record,
                    ),
            },
            found(final(self)@, record.name@) is Some,
    {
        if let Some(i) = self.find(&record.name) {
            return;
        }
        let ghost before = self.records@;
        let ghost texts = record_names(before);
        let ghost name = record.name@;
        let mut i: usize = 0;
        while i < self.records.len() && bytes_before(
            self.records[i].name.as_str().as_bytes(),
            record.name.as_str().as_bytes(),
        )
            invariant
                i <= self.records@.len(),
                self.records@ == before,
                name == record.name@,
                texts == record_names(before),
                forall|j: int| 0 <= j < i ==> text_before(#[trigger] texts[j], name),
            decreases self.records@.len() - i,
        {
            assert(texts[i as int] == self.records@[i as int].name@);
            i = i + 1;
        }
        proof {
            if i < before.len() {
                assert(texts[i as int] == before[i as int].name@);
                lemma_text_total(texts[i as int], name);
                if texts[i as int] == name {
                    assert(texts.contains(name));
                }
                assert forall|j: int| i <= j < texts.len() implies text_before(
                    name,
                    #[trigger] texts[j],
                ) by {
                    if j > i {
                        assert(text_before(texts[i as int], texts[j]));
                        lemma_lex_transitive(
                            encode_utf8(name),
                            encode_utf8(texts[i as int]),
                            encode_utf8(texts[j]),
                        );
                    }
                }
            }
        }
        self.records.insert(i, record);
        proof {
            assert(self@ == before.insert(i as int, record));
            let now = record_names(self@);
            assert(now =~= texts.insert(i as int, name));
            assert forall|a: int, b: int| 0 <= a < b < now.len() implies text_before(
                #[trigger] now[a],
                #[trigger] now[b],
            ) by {
                if a < i && b < i {
                    assert(text_before(texts[a], texts[b]));
                } else if a < i && b == i {
                    assert(now[a] == texts[a]);
                } else if a < i {
                    assert(text_before(texts[a], texts[b - 1]));
                } else if a == i {
                    assert(now[b] == texts[b - 1]);
                } else {
                    assert(text_before(texts[a - 1], texts[b - 1]));
                }
            }
            lemma_found_at(self@, i as int);
        }
    }

    pub fn lookup_channel(&self, name: &ChannelName) -> (r: Option<ChannelRecord>)
        requires
            self.wf(),
        ensures
            r == found(self@, name@),
    {
        match self.find(name) {
            Some(i) => Some(copy_record(&self.records[i])),
            None => None,
        }
    }

    /// All records, by name.
    pub fn list_channels(&self) -> (r: Vec<ChannelRecord>)
        ensures
            r@ == self@,
    {
        let mut r: Vec<ChannelRecord> = Vec::new();
        let mut i: usize = 0;
        while i < self.records.len()
            invariant
                i <= self.records@.len(),
                r@ == self.records@.take(i as int),
            decreases self.records@.len() - i,
        {
            r.push(copy_record(&self.records[i]));
            assert(r@ =~= self.records@.take(i + 1));
            i = i + 1;
        }
        assert(self.records@.take(i as int) =~= self.records@);
        r
    }
}

/// A name is found if it was announced, under the record that was announced with it.
pub proof fn law_announced_channels_are_found(records: Seq<ChannelRecord>, name: Seq<char>, i: int)
    requires
        texts_ascend(record_names(records)),
    ensures
        found(records, name) is None <==> forall|j: int|
            0 <= j < records.len() ==> (#[trigger] records[j]).name@ != name,
        0 <= i < records.len() && records[i].name@ == name ==> found(records, name) == Some(
            records[i],
        ),
{
    if 0 <= i < records.len() {
        lemma_found_at(records, i);
    }
    if forall|j: int| 0 <= j < records.len() ==> (#[trigger] records[j]).name@ != name {
        lemma_not_found(records, name);
    } else {
        let j = choose|j: int| 0 <= j < records.len() && (#[trigger] records[j]).name@ == name;
        lemma_found_at(records, j);
    }
}

} // verus!
