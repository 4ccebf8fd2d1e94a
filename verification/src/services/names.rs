//! The names under which channels are joined, in name order.

use vstd::prelude::*;
use vstd::utf8::encode_utf8;

use crate::messaging::{ChannelId, ChannelName};
use crate::order::{
    bytes_before, lemma_lex_irreflexive, lemma_lex_total, lemma_lex_transitive, lex_before, Key,
};

verus! {

/// The order of texts: that of their bytes.
pub open spec fn text_before(a: Seq<char>, b: Seq<char>) -> bool {
    lex_before(encode_utf8(a), encode_utf8(b))
}

/// Of two different texts, one comes first.
pub proof fn lemma_text_total(a: Seq<char>, b: Seq<char>)
    ensures
        text_before(a, b) || text_before(b, a) || a == b,
{
    lemma_lex_total(encode_utf8(a), encode_utf8(b));
    vstd::utf8::encode_utf8_decode_utf8(a);
    vstd::utf8::encode_utf8_decode_utf8(b);
}

/// Strictly ascending, so that nothing occurs twice.
pub open spec fn texts_ascend(s: Seq<Seq<char>>) -> bool {
    forall|i: int, j: int| 0 <= i < j < s.len() ==> text_before(#[trigger] s[i], #[trigger] s[j])
}

/// The texts of a list of names.
pub open spec fn name_texts(names: Seq<ChannelName>) -> Seq<Seq<char>> {
    Seq::new(names.len(), |i: int| names[i]@)
}

proof fn lemma_distinct(s: Seq<Seq<char>>, i: int, j: int)
    requires
        texts_ascend(s),
        0 <= i < s.len(),
        0 <= j < s.len(),
        s[i] == s[j],
    ensures
        i == j,
{
    lemma_lex_irreflexive(encode_utf8(s[i]));
    if i < j {
        assert(text_before(s[i], s[j]));
    } else if j < i {
        assert(text_before(s[j], s[i]));
    }
}

/// Which channel is joined under which name.
#[derive(Debug)]
pub struct NameIndex {
    names: Vec<ChannelName>,
    ids: Vec<ChannelId>,
}

impl View for NameIndex {
    type V = Map<Seq<char>, ChannelId>;

    closed spec fn view(&self) -> Map<Seq<char>, ChannelId> {
        let texts = name_texts(self.names@);
        Map::new(|t: Seq<char>| texts.contains(t), |t: Seq<char>| self.ids@[texts.index_of(t)])
    }
}

impl NameIndex {
    /// The names in the order in which they are listed.
    pub closed spec fn listing(&self) -> Seq<Seq<char>> {
        name_texts(self.names@)
    }

    pub closed spec fn wf(&self) -> bool {
        &&& texts_ascend(name_texts(self.names@))
        &&& self.names@.len() == self.ids@.len()
        &&& forall|i: int| 0 <= i < self.names@.len() ==> (#[trigger] self.names@[i]).wf()
    }

    pub proof fn lemma_listing(&self)
        requires
            self.wf(),
        ensures
            texts_ascend(self.listing()),
            forall|t: Seq<char>| #[trigger] self.listing().contains(t) <==> self@.contains_key(t),
    {
    }

    proof fn lemma_at(&self, i: int)
        requires
            self.wf(),
            0 <= i < self.names@.len(),
        ensures
            self@.contains_key(self.names@[i]@),
            self@[self.names@[i]@] == self.ids@[i],
    {
        let texts = name_texts(self.names@);
        assert(texts[i] == self.names@[i]@);
        assert(texts.contains(texts[i]));
        let j = texts.index_of(texts[i]);
        assert(texts[j] == texts[i]);
        lemma_distinct(texts, i, j);
    }

    pub fn new() -> (r: NameIndex)
        ensures
            r.wf(),
            r@ == Map::<Seq<char>, ChannelId>::empty(),
    {
        let r = NameIndex { names: Vec::new(), ids: Vec::new() };
        assert(r@ =~= Map::<Seq<char>, ChannelId>::empty());
        r
    }

    /// Where `name` stands, if it is listed.
    fn find(&self, name: &ChannelName) -> (r: Option<usize>)
        requires
            self.wf(),
        ensures
            match r {
                Some(p) => p < self.names@.len() && self.names@[p as int]@ == name@,
                None => !self@.contains_key(name@),
            },
    {
        let mut i: usize = 0;
        while i < self.names.len()
            invariant
                i <= self.names@.len(),
                forall|j: int| 0 <= j < i ==> (#[trigger] self.names@[j])@ != name@,
            decreases self.names@.len() - i,
        {
            if self.names[i].same(name) {
                return Some(i);
            }
            i = i + 1;
        }
        proof {
            if self@.contains_key(name@) {
                let texts = name_texts(self.names@);
                let j = choose|j: int| 0 <= j < texts.len() && texts[j] == name@;
                assert(self.names@[j]@ == name@);
            }
        }
        None
    }

    pub fn get(&self, name: &ChannelName) -> (r: Option<ChannelId>)
        requires
            self.wf(),
        ensures
            match r {
                Some(id) => self@.contains_key(name@) && id == self@[name@],
                None => !self@.contains_key(name@),
            },
    {
        match self.find(name) {
            Some(p) => {
                proof {
                    self.lemma_at(p as int);
                }
                Some(self.ids[p])
            },
            None => None,
        }
    }

    /// Lists `id` under `name`, in place of what was there.
    pub fn insert(&mut self, name: ChannelName, id: ChannelId)
        requires
            old(self).wf(),
            name.wf(),
        ensures
            final(self).wf(),
            final(self)@ == old(self)@.insert(name@, id),
    {
        let ghost before = name_texts(self.names@);
        match self.find(&name) {
            Some(p) => {
                self.ids.set(p, id);
                proof {
                    assert(self.names@ == old(self).names@);
                    assert forall|t: Seq<char>| self@.contains_key(t) <==> old(self)@.insert(name@, id).contains_key(t) by {
                        assert(before[p as int] == name@);
                    }
                    assert forall|t: Seq<char>| self@.contains_key(t) implies self@[t] == old(self)@.insert(name@, id)[t] by {
                        let j = before.index_of(t);
                        assert(before[j] == t);
                        if t == name@ {
                            lemma_distinct(before, j, p as int);
                        }
                    }
                    assert(self@ =~= old(self)@.insert(name@, id));
                }
            },
            None => {
                let mut p: usize = 0;
                while p < self.names.len() && bytes_before(
                    self.names[p].as_str().as_bytes(),
                    name.as_str().as_bytes(),
                )
                    invariant
                        p <= self.names@.len(),
                        *self == *old(self),
                        before == name_texts(self.names@),
                        forall|j: int| 0 <= j < p ==> text_before(#[trigger] before[j], name@),
                    decreases self.names@.len() - p,
                {
                    assert(before[p as int] == self.names@[p as int]@);
                    p = p + 1;
                }
                proof {
                    assert forall|j: int| p <= j < before.len() implies text_before(name@, #[trigger] before[j]) by {
                        lemma_text_total(name@, before[p as int]);
                        assert(before[p as int] == self.names@[p as int]@);
                        assert(before.contains(before[p as int]));
                        if j > p {
                            assert(text_before(before[p as int], before[j]));
                            lemma_lex_transitive(
                                encode_utf8(name@),
                                encode_utf8(before[p as int]),
                                encode_utf8(before[j]),
                            );
                        }
                    }
                }
                let ghost n0 = name;
                self.names.insert(p, name);
                self.ids.insert(p, id);
                proof {
                    let after = name_texts(self.names@);
                    assert(after =~= before.insert(p as int, n0@));
                    assert forall|i: int, j: int| 0 <= i < j < after.len() implies text_before(
                        #[trigger] after[i],
                        #[trigger] after[j],
                    ) by {
                        if i < p {
                            if j < p {
                                assert(text_before(before[i], before[j]));
                            } else if j > p {
                                assert(text_before(before[i], before[j - 1]));
                            } else {
                                assert(text_before(before[i], n0@));
                            }
                        } else if i == p {
                            assert(text_before(n0@, before[j - 1]));
                        } else {
                            assert(text_before(before[i - 1], before[j - 1]));
                        }
                    }
                    assert forall|i: int| 0 <= i < self.names@.len() implies (#[trigger] self.names@[i]).wf() by {
                        if i < p {
                            assert(self.names@[i] == old(self).names@[i]);
                        } else if i > p {
                            assert(self.names@[i] == old(self).names@[i - 1]);
                        }
                    }
                    assert(self.wf());
                    assert forall|t: Seq<char>| self@.contains_key(t) <==> old(self)@.insert(n0@, id).contains_key(t) by {
                        if before.contains(t) {
                            let j = choose|j: int| 0 <= j < before.len() && before[j] == t;
                            let k = if j < p { j } else { j + 1 };
                            assert(after[k] == t);
                        }
                        assert(after[p as int] == n0@);
                        if after.contains(t) {
                            let k = choose|k: int| 0 <= k < after.len() && after[k] == t;
                            if k < p {
                                assert(before[k] == t);
                            } else if k > p {
                                assert(before[k - 1] == t);
                            }
                        }
                    }
                    assert forall|t: Seq<char>| self@.contains_key(t) implies self@[t] == old(self)@.insert(n0@, id)[t] by {
                        let k = after.index_of(t);
                        assert(after[k] == t);
                        self.lemma_at(k);
                        if k == p {
                        } else {
                            let j = if k < p { k } else { k - 1 };
                            assert(before[j] == t);
                            old(self).lemma_at(j);
                            assert(before.contains(t));
                        }
                    }
                    assert(self@ =~= old(self)@.insert(n0@, id));
                }
            },
        }
    }

    /// Takes `name` off the list.
    pub fn remove(&mut self, name: &ChannelName) -> (r: Option<ChannelId>)
        requires
            old(self).wf(),
        ensures
            final(self).wf(),
            final(self)@ == old(self)@.remove(name@),
            match r {
                Some(id) => old(self)@.contains_key(name@) && id == old(self)@[name@],
                None => !old(self)@.contains_key(name@),
            },
    {
        let ghost before = name_texts(self.names@);
        match self.find(name) {
            None => {
                assert(old(self)@.remove(name@) =~= old(self)@);
                None
            },
            Some(p) => {
                proof {
                    self.lemma_at(p as int);
                }
                self.names.remove(p);
                let id: ChannelId = self.ids.remove(p);
                proof {
                    let after = name_texts(self.names@);
                    assert(after =~= before.remove(p as int));
                    assert forall|i: int, j: int| 0 <= i < j < after.len() implies text_before(
                        #[trigger] after[i],
                        #[trigger] after[j],
                    ) by {
                        let a = if i < p { i } else { i + 1 };
                        let b = if j < p { j } else { j + 1 };
                        assert(text_before(before[a], before[b]));
                    }
                    assert forall|i: int| 0 <= i < self.names@.len() implies (#[trigger] self.names@[i]).wf() by {
                        let a = if i < p { i } else { i + 1 };
                        assert(self.names@[i] == old(self).names@[a]);
                    }
                    assert(self.wf());
                    assert(before[p as int] == name@);
                    assert forall|t: Seq<char>| self@.contains_key(t) <==> old(self)@.remove(name@).contains_key(t) by {
                        if after.contains(t) {
                            let k = choose|k: int| 0 <= k < after.len() && after[k] == t;
                            let a = if k < p { k } else { k + 1 };
                            assert(before[a] == t);
                            if t == name@ {
                                lemma_distinct(before, a, p as int);
                            }
                        }
                        if before.contains(t) && t != name@ {
                            let a = choose|a: int| 0 <= a < before.len() && before[a] == t;
                            let k = if a < p { a } else { a - 1 };
                            assert(after[k] == t);
                        }
                    }
                    assert forall|t: Seq<char>| self@.contains_key(t) implies self@[t] == old(self)@.remove(name@)[t] by {
                        let k = after.index_of(t);
                        assert(after[k] == t);
                        self.lemma_at(k);
                        let a = if k < p { k } else { k + 1 };
                        assert(before[a] == t);
                        old(self).lemma_at(a);
                    }
                    assert(self@ =~= old(self)@.remove(name@));
                }
                Some(id)
            },
        }
    }

    /// All names, in order.
    pub fn names(&self) -> (r: Vec<ChannelName>)
        requires
            self.wf(),
        ensures
            name_texts(r@) == self.listing(),
            forall|i: int| 0 <= i < r@.len() ==> (#[trigger] r@[i]).wf(),
    {
        let mut r: Vec<ChannelName> = Vec::new();
        let mut i: usize = 0;
        while i < self.names.len()
            invariant
                i <= self.names@.len(),
                r@.len() == i,
                forall|j: int| 0 <= j < i ==> #[trigger] r@[j] == self.names@[j],
            decreases self.names@.len() - i,
        {
            r.push(self.names[i].clone());
            i = i + 1;
        }
        proof {
            assert(name_texts(r@) =~= self.listing());
            assert forall|i: int| 0 <= i < r@.len() implies (#[trigger] r@[i]).wf() by {
                assert(r@[i] == self.names@[i]);
            }
        }
        r
    }

    /// The first name, in order, under which `id` is joined.
    pub fn name_of(&self, id: &ChannelId) -> (r: Option<ChannelName>)
        requires
            self.wf(),
        ensures
            match r {
                Some(n) => {
                    &&& n.wf()
                    &&& self@.contains_key(n@)
                    &&& self@[n@] == *id
                    &&& forall|t: Seq<char>| #[trigger]
                        self@.contains_key(t) && self@[t] == *id ==> !text_before(t, n@)
                },
                None => forall|t: Seq<char>| #[trigger] self@.contains_key(t) ==> self@[t] != *id,
            },
    {
        let mut i: usize = 0;
        let ghost texts = name_texts(self.names@);
        while i < self.names.len()
            invariant
                i <= self.names@.len(),
                self.wf(),
                texts == name_texts(self.names@),
                forall|j: int| 0 <= j < i ==> #[trigger] self.ids@[j] != *id,
            decreases self.names@.len() - i,
        {
            if self.ids[i].same(id) {
                proof {
                    self.lemma_at(i as int);
                    assert forall|t: Seq<char>| #[trigger] self@.contains_key(t) && self@[t] == *id implies !text_before(
                        t,
                        self.names@[i as int]@,
                    ) by {
                        let j = choose|j: int| 0 <= j < texts.len() && texts[j] == t;
                        self.lemma_at(j);
                        assert(self.ids@[j] == *id);
                        lemma_lex_irreflexive(encode_utf8(t));
                        if j > i {
                            assert(text_before(texts[i as int], texts[j]));
                            if text_before(t, texts[i as int]) {
                                lemma_lex_transitive(
                                    encode_utf8(t),
                                    encode_utf8(texts[i as int]),
                                    encode_utf8(t),
                                );
                            }
                        }
                    }
                }
                return Some(self.names[i].clone());
            }
            i = i + 1;
        }
        proof {
            assert forall|t: Seq<char>| #[trigger] self@.contains_key(t) implies self@[t] != *id by {
                let j = choose|j: int| 0 <= j < texts.len() && texts[j] == t;
                self.lemma_at(j);
            }
        }
        None
    }
}

} // verus!
