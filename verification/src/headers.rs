//! Header maps: a model of headers as a list of names with values, and
//! the map type that keeps to it.

use vstd::prelude::*;
use vstd::utf8::*;
use vstd::string::StringSliceAdditionalSpecFns;
use crate::text::bytes_eq;

verus! {

/// One header as it stands on the wire: a name and its list of values,
/// each given by its UTF-8 bytes.
pub struct Header {
    pub name: Seq<u8>,
    pub values: Seq<Seq<u8>>,
}

/// The UTF-8 bytes of each string of `v`.
pub open spec fn texts_bytes(v: Seq<String>) -> Seq<Seq<u8>> {
    Seq::new(v.len(), |i: int| encode_utf8(v[i]@))
}

/// The index of the first header called `name`, or the number of headers
/// where there is none.
pub open spec fn position(hs: Seq<Header>, name: Seq<u8>) -> int
    decreases hs.len(),
{
    if hs.len() == 0 || hs[0].name == name {
        0
    } else {
        1 + position(hs.drop_first(), name)
    }
}

/// Whether a header called `name` is present.
pub open spec fn has_name(hs: Seq<Header>, name: Seq<u8>) -> bool {
    position(hs, name) < hs.len()
}

/// The values of the header called `name`.
pub open spec fn lookup(hs: Seq<Header>, name: Seq<u8>) -> Option<Seq<Seq<u8>>> {
    if has_name(hs, name) {
        Some(hs[position(hs, name)].values)
    } else {
        None
    }
}

/// The headers after `name` has been given `values`: a header of that
/// name has its values replaced where it stands, a new name is added at
/// the end.
pub open spec fn put(hs: Seq<Header>, name: Seq<u8>, values: Seq<Seq<u8>>) -> Seq<Header> {
    if has_name(hs, name) {
        hs.update(position(hs, name), Header { name, values })
    } else {
        hs.push(Header { name, values })
    }
}

/// Whether no two headers have the same name.
pub open spec fn distinct_names(hs: Seq<Header>) -> bool {
    forall|i: int, j: int|
        0 <= i < hs.len() && 0 <= j < hs.len() && i != j ==> (#[trigger] hs[i]).name
            != (#[trigger] hs[j]).name
}

/// Whether every header has at least one value.
pub open spec fn has_values(hs: Seq<Header>) -> bool {
    forall|i: int| 0 <= i < hs.len() ==> (#[trigger] hs[i]).values.len() > 0
}

/// What holds of every header map: no name occurs twice, and every name
/// has at least one value.
pub open spec fn well_formed(hs: Seq<Header>) -> bool {
    distinct_names(hs) && has_values(hs)
}

/// The headers as a mapping from name to values.
pub open spec fn as_map(hs: Seq<Header>) -> Map<Seq<u8>, Seq<Seq<u8>>> {
    Map::new(|name: Seq<u8>| has_name(hs, name), |name: Seq<u8>| hs[position(hs, name)].values)
}

/// What [`position`] returns: the place of the first header of that name.
pub proof fn lemma_position(hs: Seq<Header>, name: Seq<u8>)
    ensures
        0 <= position(hs, name) <= hs.len(),
        position(hs, name) < hs.len() ==> hs[position(hs, name)].name == name,
        forall|j: int| 0 <= j < position(hs, name) ==> (#[trigger] hs[j]).name != name,
    decreases hs.len(),
{
    if hs.len() == 0 || hs[0].name == name {
    } else {
        lemma_position(hs.drop_first(), name);
        let r = position(hs.drop_first(), name);
        assert forall|j: int| 0 <= j < 1 + r implies (#[trigger] hs[j]).name != name by {
            if j > 0 {
                assert(hs.drop_first()[j - 1] == hs[j]);
            }
        }
    }
}

/// The first header of a name is where the name stands with none before.
pub proof fn lemma_position_is(hs: Seq<Header>, name: Seq<u8>, n: int)
    requires
        0 <= n <= hs.len(),
        n < hs.len() ==> hs[n].name == name,
        forall|j: int| 0 <= j < n ==> (#[trigger] hs[j]).name != name,
    ensures
        position(hs, name) == n,
{
    lemma_position(hs, name);
    let r = position(hs, name);
    if r < n {
        assert(hs[r].name != name);
    } else if r > n {
        assert(hs[n].name != name);
    }
}

/// Giving a name its values keeps a header map well formed, makes the
/// name map to those values and leaves every other name as it was.
pub proof fn lemma_put(hs: Seq<Header>, name: Seq<u8>, values: Seq<Seq<u8>>)
    requires
        well_formed(hs),
        values.len() > 0,
    ensures
        well_formed(put(hs, name, values)),
        as_map(put(hs, name, values)) == as_map(hs).insert(name, values),
{
    let after = put(hs, name, values);
    let p = position(hs, name);
    lemma_position(hs, name);
    assert forall|i: int| 0 <= i < hs.len() implies (#[trigger] after[i]).name == hs[i].name by {}
    assert forall|other: Seq<u8>|
        has_name(after, other) == (other == name || has_name(hs, other)) && (has_name(
            after,
            other,
        ) ==> after[position(after, other)].values == (if other == name {
            values
        } else {
            hs[position(hs, other)].values
        })) by {
        lemma_position(hs, other);
        let q = position(hs, other);
        if q < hs.len() {
            lemma_position_is(after, other, q);
        } else if other == name {
            lemma_position_is(after, other, q);
        } else {
            lemma_position_is(after, other, after.len() as int);
        }
    }
    assert(as_map(after) =~= as_map(hs).insert(name, values));
}

/// After a name has been given its values, looking the name up gives
/// those values and looking up any other name gives what it gave before;
/// giving the same values again changes nothing; names that were distinct
/// stay distinct; and every header is the new one or one of the old.
pub proof fn lemma_put_lookup(hs: Seq<Header>, name: Seq<u8>, values: Seq<Seq<u8>>)
    ensures
        lookup(put(hs, name, values), name) == Some(values),
        forall|other: Seq<u8>|
            other != name ==> #[trigger] lookup(put(hs, name, values), other) == lookup(hs, other),
        put(put(hs, name, values), name, values) == put(hs, name, values),
        distinct_names(hs) ==> distinct_names(put(hs, name, values)),
        forall|i: int|
            0 <= i < put(hs, name, values).len() ==> (#[trigger] put(hs, name, values)[i])
                == (Header { name, values }) || (i < hs.len() && put(hs, name, values)[i]
                == hs[i]),
{
    let after = put(hs, name, values);
    let p = position(hs, name);
    lemma_position(hs, name);
    assert forall|i: int| 0 <= i < hs.len() implies (#[trigger] after[i]).name == hs[i].name by {}
    lemma_position_is(after, name, p);
    assert forall|other: Seq<u8>| other != name implies #[trigger] lookup(after, other) == lookup(
        hs,
        other,
    ) by {
        lemma_position(hs, other);
        let q = position(hs, other);
        if q < hs.len() {
            lemma_position_is(after, other, q);
        } else {
            lemma_position_is(after, other, after.len() as int);
        }
    }
    assert(put(after, name, values) =~= after);
}

/// A header name with its values.
#[derive(Debug)]
struct HeaderEntry {
    name: String,
    values: Vec<String>,
}

impl HeaderEntry {
    spec fn model(self) -> Header {
        Header { name: encode_utf8(self.name@), values: texts_bytes(self.values@) }
    }

    fn copy(&self) -> (e: HeaderEntry)
        ensures
            e.model() == self.model(),
    {
        HeaderEntry { name: self.name.clone(), values: copy_texts(&self.values) }
    }
}

/// A copy of each string of `v`.
pub fn copy_texts(v: &Vec<String>) -> (out: Vec<String>)
    ensures
        out@.len() == v@.len(),
        forall|i: int| 0 <= i < v@.len() ==> (#[trigger] out@[i])@ == v@[i]@,
        texts_bytes(out@) == texts_bytes(v@),
{
    let mut out: Vec<String> = Vec::new();
    let mut i: usize = 0;
    while i < v.len()
        invariant
            i <= v@.len(),
            out@.len() == i,
            forall|j: int| 0 <= j < i ==> (#[trigger] out@[j])@ == v@[j]@,
        decreases v@.len() - i,
    {
        out.push(v[i].clone());
        i += 1;
    }
    assert(texts_bytes(out@) =~= texts_bytes(v@));
    out
}

impl Clone for HeaderMap {
    fn clone(&self) -> (m: HeaderMap)
        ensures
            m@ == self@,
    {
        proof {
            use_type_invariant(self);
        }
        let mut entries: Vec<HeaderEntry> = Vec::new();
        let mut i: usize = 0;
        while i < self.entries.len()
            invariant
                i <= self.entries@.len(),
                entries@.len() == i,
                forall|j: int|
                    0 <= j < i ==> (#[trigger] entries@[j]).model() == self.entries@[j].model(),
            decreases self.entries@.len() - i,
        {
            entries.push(self.entries[i].copy());
            i += 1;
        }
        assert(Seq::new(entries@.len(), |i: int| entries@[i].model()) =~= self@);
        HeaderMap { entries }
    }
}

/// A mapping from header name to a list of values. Names are compared
/// byte for byte. The headers keep the order in which their names were
/// first given.
#[derive(Debug)]
pub struct HeaderMap {
    entries: Vec<HeaderEntry>,
}

impl View for HeaderMap {
    type V = Seq<Header>;

    closed spec fn view(&self) -> Seq<Header> {
        Seq::new(self.entries@.len(), |i: int| self.entries@[i].model())
    }
}

impl HeaderMap {
    #[verifier::type_invariant]
    spec fn inv(self) -> bool {
        well_formed(self@)
    }

    /// The names and values of a header map are valid UTF-8.
    pub proof fn lemma_texts_are_utf8(self)
        ensures
            forall|i: int|
                0 <= i < self@.len() ==> valid_utf8((#[trigger] self@[i]).name) && forall|j: int|
                    0 <= j < self@[i].values.len() ==> valid_utf8(#[trigger] self@[i].values[j]),
    {
        assert forall|i: int| 0 <= i < self@.len() implies valid_utf8((#[trigger] self@[i]).name)
            && forall|j: int|
            0 <= j < self@[i].values.len() ==> valid_utf8(#[trigger] self@[i].values[j]) by {
            let e = self.entries@[i];
            encode_utf8_valid_utf8(e.name@);
            assert forall|j: int| 0 <= j < self@[i].values.len() implies valid_utf8(
                #[trigger] self@[i].values[j],
            ) by {
                encode_utf8_valid_utf8(e.values@[j]@);
            }
        }
    }

    /// The empty header map.
    pub fn new() -> (m: HeaderMap)
        ensures
            m@ == Seq::<Header>::empty(),
    {
        let m = HeaderMap { entries: Vec::new() };
        assert(m@ =~= Seq::<Header>::empty());
        m
    }

    /// The number of headers.
    pub fn len(&self) -> (n: usize)
        ensures
            n == self@.len(),
            well_formed(self@),
    {
        proof {
            use_type_invariant(self);
        }
        self.entries.len()
    }

    /// The name of the header at index `i`.
    pub fn name_at(&self, i: usize) -> (name: &str)
        requires
            i < self@.len(),
        ensures
            name.spec_bytes() == self@[i as int].name,
    {
        self.entries[i].name.as_str()
    }

    /// The values of the header at index `i`.
    pub fn values_at(&self, i: usize) -> (values: &Vec<String>)
        requires
            i < self@.len(),
        ensures
            texts_bytes(values@) == self@[i as int].values,
            values@.len() > 0,
    {
        proof {
            use_type_invariant(self);
            assert(self@[i as int].values.len() > 0);
        }
        &self.entries[i].values
    }

    /// The index of the header called `name`.
    pub fn find(&self, name: &str) -> (r: Option<usize>)
        ensures
            match r {
                Some(i) => has_name(self@, name.spec_bytes()) && i == position(
                    self@,
                    name.spec_bytes(),
                ),
                None => !has_name(self@, name.spec_bytes()),
            },
    {
        let wanted = name.as_bytes();
        let mut i: usize = 0;
        while i < self.entries.len()
            invariant
                i <= self.entries@.len(),
                wanted@ == name.spec_bytes(),
                forall|j: int| 0 <= j < i ==> (#[trigger] self@[j]).name != wanted@,
            decreases self.entries@.len() - i,
        {
            if bytes_eq(self.entries[i].name.as_str().as_bytes(), wanted) {
                proof {
                    lemma_position_is(self@, wanted@, i as int);
                }
                return Some(i);
            }
            i += 1;
        }
        proof {
            lemma_position_is(self@, wanted@, i as int);
        }
        None
    }

    /// Whether a header called `name` is present.
    pub fn contains_key(&self, name: &str) -> (r: bool)
        ensures
            r == has_name(self@, name.spec_bytes()),
    {
        self.find(name).is_some()
    }

    /// The values of the header called `name`.
    pub fn get(&self, name: &str) -> (r: Option<&Vec<String>>)
        ensures
            match r {
                Some(values) => lookup(self@, name.spec_bytes()) == Some(texts_bytes(values@))
                    && values@.len() > 0,
                None => lookup(self@, name.spec_bytes()) is None,
            },
    {
        match self.find(name) {
            Some(i) => Some(self.values_at(i)),
            None => None,
        }
    }

    /// Gives `name` the list `values`. A header of that name has its
    /// values replaced; otherwise the header is added.
    pub fn insert(&mut self, name: String, values: Vec<String>)
        requires
            values@.len() > 0,
        ensures
            final(self)@ == put(old(self)@, encode_utf8(name@), texts_bytes(values@)),
            as_map(final(self)@) == as_map(old(self)@).insert(
                encode_utf8(name@),
                texts_bytes(values@),
            ),
            well_formed(final(self)@),
    {
        proof {
            use_type_invariant(&*self);
            lemma_put(self@, encode_utf8(name@), texts_bytes(values@));
        }
        let ghost before = self@;
        let found = self.find(name.as_str());
        let entry = HeaderEntry { name, values };
        let mut entries: Vec<HeaderEntry> = Vec::new();
        assert(Seq::new(0, |i: int| entries@[i].model()) =~= Seq::<Header>::empty());
        core::mem::swap(&mut self.entries, &mut entries);
        match found {
            Some(i) => {
                entries.set(i, entry);
            },
            None => {
                entries.push(entry);
            },
        }
        assert(Seq::new(entries@.len(), |i: int| entries@[i].model()) =~= put(
            before,
            entry.model().name,
            entry.model().values,
        ));
        core::mem::swap(&mut self.entries, &mut entries);
    }
}

} // verus!
