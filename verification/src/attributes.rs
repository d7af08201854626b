//! Document attributes: names with values, some of which the author or caller set
//! and some of which are defaults.

use crate::text::same_chars;
use std::borrow::Cow;
use vstd::prelude::*;
use vstd::std_specs::convert::FromSpecImpl;
use vstd::string::*;

verus! {

/// The value of an attribute.
#[derive(Debug)]
pub enum AttributeValue<'a> {
    /// A text.
    String(Cow<'a, str>),
    /// Set or not.
    Bool(bool),
    /// Without value.
    Empty,
}

/// What a value is.
#[verifier::ext_equal]
pub enum ValueV {
    Text(Seq<char>),
    Flag(bool),
    Nothing,
}

impl<'a> View for AttributeValue<'a> {
    type V = ValueV;

    open spec fn view(&self) -> ValueV {
        match self {
            AttributeValue::String(s) => ValueV::Text(s@),
            AttributeValue::Bool(b) => ValueV::Flag(*b),
            AttributeValue::Empty => ValueV::Nothing,
        }
    }
}

impl<'a> From<&'a str> for AttributeValue<'a> {
    fn from(v: &'a str) -> (r: AttributeValue<'a>) {
        AttributeValue::String(Cow::Borrowed(v))
    }
}

impl<'a> FromSpecImpl<&'a str> for AttributeValue<'a> {
    open spec fn obeys_from_spec() -> bool {
        true
    }

    open spec fn from_spec(v: &'a str) -> AttributeValue<'a> {
        AttributeValue::String(Cow::Borrowed(v))
    }
}

impl<'a> From<bool> for AttributeValue<'a> {
    fn from(v: bool) -> (r: AttributeValue<'a>) {
        AttributeValue::Bool(v)
    }
}

impl<'a> FromSpecImpl<bool> for AttributeValue<'a> {
    open spec fn obeys_from_spec() -> bool {
        true
    }

    open spec fn from_spec(v: bool) -> AttributeValue<'a> {
        AttributeValue::Bool(v)
    }
}

impl<'a> From<()> for AttributeValue<'a> {
    fn from(v: ()) -> (r: AttributeValue<'a>) {
        AttributeValue::Empty
    }
}

impl<'a> FromSpecImpl<()> for AttributeValue<'a> {
    open spec fn obeys_from_spec() -> bool {
        true
    }

    open spec fn from_spec(v: ()) -> AttributeValue<'a> {
        AttributeValue::Empty
    }
}

fn cow_str<'b, 'a>(c: &'b Cow<'a, str>) -> (r: &'b str)
    ensures
        r@ == c@,
{
    match c {
        Cow::Borrowed(b) => b,
        Cow::Owned(o) => o.as_str(),
    }
}

fn copy_cow<'a>(c: &Cow<'a, str>) -> (r: Cow<'a, str>)
    ensures
        r@ == c@,
{
    match c {
        Cow::Borrowed(b) => Cow::Borrowed(*b),
        Cow::Owned(o) => Cow::Owned(o.clone()),
    }
}

fn own_cow(c: &Cow<'_, str>) -> (r: Cow<'static, str>)
    ensures
        r@ == c@,
{
    Cow::Owned(cow_str(c).to_owned())
}

impl<'a> Clone for AttributeValue<'a> {
    /// The same value.
    fn clone(&self) -> (r: AttributeValue<'a>)
        ensures
            r@ == self@,
    {
        match self {
            AttributeValue::String(s) => AttributeValue::String(copy_cow(s)),
            AttributeValue::Bool(b) => AttributeValue::Bool(*b),
            AttributeValue::Empty => AttributeValue::Empty,
        }
    }
}

impl<'a> AttributeValue<'a> {
    /// The same value, on its own.
    pub fn into_static(self) -> (r: AttributeValue<'static>)
        ensures
            r@ == self@,
    {
        match self {
            AttributeValue::String(s) => AttributeValue::String(own_cow(&s)),
            AttributeValue::Bool(b) => AttributeValue::Bool(b),
            AttributeValue::Empty => AttributeValue::Empty,
        }
    }
}

/// An attribute as it is held.
#[derive(Debug)]
pub struct Attribute<'a> {
    name: Cow<'a, str>,
    value: AttributeValue<'a>,
    explicit: bool,
}

/// The attributes of a document. Each has a value; those that were set, and are no
/// defaults, are explicit.
#[derive(Debug)]
pub struct DocumentAttributes<'a> {
    entries: Vec<Attribute<'a>>,
}

/// The entries by name, each with its value and whether it is explicit.
spec fn entries_map(entries: Seq<Attribute<'_>>) -> Map<Seq<char>, (ValueV, bool)>
    decreases entries.len(),
{
    if entries.len() == 0 {
        Map::empty()
    } else {
        entries_map(entries.drop_last()).insert(
            entries.last().name@,
            (entries.last().value@, entries.last().explicit),
        )
    }
}

/// No name stands twice.
spec fn distinct(entries: Seq<Attribute<'_>>) -> bool {
    forall|i: int, j: int|
        0 <= i < j < entries.len() ==> #[trigger] entries[i].name@ != #[trigger] entries[j].name@
}

/// A name that no entry has is not in the map; one that an entry has is there with
/// that entry's value.
proof fn lemma_entries(entries: Seq<Attribute<'_>>, name: Seq<char>)
    requires
        distinct(entries),
    ensures
        entries_map(entries).contains_key(name) <==> exists|i: int|
            0 <= i < entries.len() && #[trigger] entries[i].name@ == name,
        forall|i: int|
            0 <= i < entries.len() && #[trigger] entries[i].name@ == name ==> entries_map(
                entries,
            )[name] == (entries[i].value@, entries[i].explicit),
    decreases entries.len(),
{
    if entries.len() > 0 {
        let before = entries.drop_last();
        assert(distinct(before)) by {
            assert forall|i: int, j: int| 0 <= i < j < before.len() implies #[trigger] before[i].name@
                != #[trigger] before[j].name@ by {
                assert(entries[i].name@ != entries[j].name@);
            }
        }
        lemma_entries(before, name);
        let last = entries.len() - 1;
        if entries_map(before).contains_key(name) {
            let i = choose|i: int| 0 <= i < before.len() && #[trigger] before[i].name@ == name;
            assert(entries[i].name@ == name);
        }
        if entries[last].name@ == name {
            assert(entries.last().name@ == name);
        }
        assert forall|i: int|
            0 <= i < entries.len() && #[trigger] entries[i].name@ == name implies entries_map(
            entries,
        )[name] == (entries[i].value@, entries[i].explicit) by {
            if i < last {
                assert(before[i].name@ == name);
                assert(entries[i].name@ != entries[last].name@);
            }
        }
        if exists|i: int| 0 <= i < entries.len() && #[trigger] entries[i].name@ == name {
            let i = choose|i: int| 0 <= i < entries.len() && #[trigger] entries[i].name@ == name;
            if i < last {
                assert(before[i].name@ == name);
            }
        }
    }
}

/// A changed entry changes the value of its name alone.
proof fn lemma_entries_update(entries: Seq<Attribute<'_>>, i: int, a: Attribute<'_>)
    requires
        distinct(entries),
        0 <= i < entries.len(),
        a.name@ == entries[i].name@,
    ensures
        distinct(entries.update(i, a)),
        entries_map(entries.update(i, a)) == entries_map(entries).insert(
            a.name@,
            (a.value@, a.explicit),
        ),
{
    let after = entries.update(i, a);
    assert(distinct(after)) by {
        assert forall|j: int, k: int| 0 <= j < k < after.len() implies #[trigger] after[j].name@
            != #[trigger] after[k].name@ by {
            assert(entries[j].name@ != entries[k].name@);
        }
    }
    let want = entries_map(entries).insert(a.name@, (a.value@, a.explicit));
    assert forall|n: Seq<char>| #[trigger]
        entries_map(after).contains_key(n) <==> want.contains_key(n) by {
        lemma_same_names(entries, after, n);
        lemma_entries(entries, n);
        assert(entries[i].name@ == a.name@);
    }
    assert forall|n: Seq<char>| #[trigger] want.contains_key(n) implies entries_map(after)[n]
        == want[n] by {
        lemma_same_names(entries, after, n);
        lemma_entries(entries, n);
        lemma_entries(after, n);
        let j = choose|j: int| 0 <= j < entries.len() && #[trigger] entries[j].name@ == n;
        if n == a.name@ {
            assert(after[i].name@ == n);
            assert(entries[i].name@ == n);
        } else {
            assert(entries[j].name@ == n);
            assert(after[j] == entries[j]);
            assert(after[j].name@ == n);
        }
    }
    assert(entries_map(after) =~= want);
}

proof fn lemma_same_names(a: Seq<Attribute<'_>>, b: Seq<Attribute<'_>>, n: Seq<char>)
    requires
        distinct(a),
        distinct(b),
        a.len() == b.len(),
        forall|k: int| 0 <= k < a.len() ==> #[trigger] a[k].name@ == #[trigger] b[k].name@,
    ensures
        entries_map(a).contains_key(n) <==> entries_map(b).contains_key(n),
{
    lemma_entries(a, n);
    lemma_entries(b, n);
    if entries_map(a).contains_key(n) {
        let k = choose|k: int| 0 <= k < a.len() && #[trigger] a[k].name@ == n;
        assert(b[k].name@ == n);
    }
    if entries_map(b).contains_key(n) {
        let k = choose|k: int| 0 <= k < b.len() && #[trigger] b[k].name@ == n;
        assert(a[k].name@ == n);
    }
}

/// Without an entry the rest stays, and its name is gone.
proof fn lemma_entries_remove(entries: Seq<Attribute<'_>>, i: int)
    requires
        distinct(entries),
        0 <= i < entries.len(),
    ensures
        distinct(entries.remove(i)),
        entries_map(entries.remove(i)) == entries_map(entries).remove(entries[i].name@),
{
    let after = entries.remove(i);
    let name = entries[i].name@;
    assert(distinct(after)) by {
        assert forall|j: int, k: int| 0 <= j < k < after.len() implies #[trigger] after[j].name@
            != #[trigger] after[k].name@ by {
            let j2 = if j < i {
                j
            } else {
                j + 1
            };
            let k2 = if k < i {
                k
            } else {
                k + 1
            };
            assert(entries[j2].name@ != entries[k2].name@);
        }
    }
    let want = entries_map(entries).remove(name);
    assert forall|n: Seq<char>| #[trigger]
        entries_map(after).contains_key(n) <==> want.contains_key(n) by {
        lemma_entries(entries, n);
        lemma_entries(after, n);
        if entries_map(after).contains_key(n) {
            let k = choose|k: int| 0 <= k < after.len() && #[trigger] after[k].name@ == n;
            let k2 = if k < i {
                k
            } else {
                k + 1
            };
            assert(entries[k2].name@ == n);
            assert(n != name) by {
                if k2 < i {
                    assert(entries[k2].name@ != entries[i].name@);
                } else {
                    assert(entries[i].name@ != entries[k2].name@);
                }
            }
        }
        if want.contains_key(n) {
            let k = choose|k: int| 0 <= k < entries.len() && #[trigger] entries[k].name@ == n;
            assert(k != i);
            let k2 = if k < i {
                k
            } else {
                k - 1
            };
            assert(after[k2].name@ == n);
        }
    }
    assert forall|n: Seq<char>| #[trigger] want.contains_key(n) implies entries_map(after)[n]
        == want[n] by {
        lemma_entries(entries, n);
        lemma_entries(after, n);
        let k = choose|k: int| 0 <= k < entries.len() && #[trigger] entries[k].name@ == n;
        assert(k != i);
        let k2 = if k < i {
            k
        } else {
            k - 1
        };
        assert(after[k2] == entries[k]);
        assert(after[k2].name@ == n);
    }
    assert(entries_map(after) =~= want);
}

impl<'a> View for DocumentAttributes<'a> {
    type V = Map<Seq<char>, (ValueV, bool)>;

    closed spec fn view(&self) -> Map<Seq<char>, (ValueV, bool)> {
        entries_map(self.entries@)
    }
}

impl<'a> Default for DocumentAttributes<'a> {
    /// No attributes.
    fn default() -> (r: DocumentAttributes<'a>)
        ensures
            r@ == Map::<Seq<char>, (ValueV, bool)>::empty(),
    {
        DocumentAttributes { entries: Vec::new() }
    }
}

impl<'a> DocumentAttributes<'a> {
    #[verifier::type_invariant]
    spec fn wf(self) -> bool {
        distinct(self.entries@)
    }

    /// The entry of a name.
    fn position(&self, name: &str) -> (r: Option<usize>)
        ensures
            match r {
                Some(i) => i < self.entries@.len() && self.entries@[i as int].name@ == name@,
                None => forall|k: int|
                    0 <= k < self.entries@.len() ==> #[trigger] self.entries@[k].name@ != name@,
            },
    {
        let mut i: usize = 0;
        while i < self.entries.len()
            invariant
                i <= self.entries@.len(),
                forall|k: int| 0 <= k < i ==> #[trigger] self.entries@[k].name@ != name@,
            decreases self.entries.len() - i,
        {
            if same_chars(cow_str(&self.entries[i].name), name) {
                return Some(i);
            }
            i += 1;
        }
        None
    }

    /// Whether the attribute has a value, explicit or not.
    pub fn contains_key(&self, name: &str) -> (r: bool)
        ensures
            r == self@.contains_key(name@),
    {
        proof {
            use_type_invariant(self);
            lemma_entries(self.entries@, name@);
        }
        match self.position(name) {
            Some(_) => true,
            None => false,
        }
    }

    /// The value of the attribute.
    pub fn get(&self, name: &str) -> (r: Option<&AttributeValue<'a>>)
        ensures
            match r {
                Some(v) => self@.contains_key(name@) && self@[name@].0 == v@,
                None => !self@.contains_key(name@),
            },
    {
        proof {
            use_type_invariant(self);
            lemma_entries(self.entries@, name@);
        }
        match self.position(name) {
            Some(i) => Some(&self.entries[i].value),
            None => None,
        }
    }

    /// Whether the attribute was set and is no default.
    pub fn is_explicit(&self, name: &str) -> (r: bool)
        ensures
            r == (self@.contains_key(name@) && self@[name@].1),
    {
        proof {
            use_type_invariant(self);
            lemma_entries(self.entries@, name@);
        }
        match self.position(name) {
            Some(i) => self.entries[i].explicit,
            None => false,
        }
    }

    fn put(self, name: Cow<'a, str>, value: AttributeValue<'a>, explicit: bool) -> (r:
        DocumentAttributes<'a>)
        ensures
            r@ == self@.insert(name@, (value@, explicit)),
    {
        proof {
            use_type_invariant(&self);
            lemma_entries(self.entries@, name@);
        }
        let found = self.position(cow_str(&name));
        let mut entries = self.entries;
        let ghost before = entries@;
        let entry = Attribute { name, value, explicit };
        match found {
            Some(i) => {
                entries.set(i, entry);
                proof {
                    lemma_entries_update(before, i as int, entry);
                }
            },
            None => {
                entries.push(entry);
                assert(distinct(entries@)) by {
                    assert forall|j: int, k: int|
                        0 <= j < k < entries@.len() implies #[trigger] entries@[j].name@
                        != #[trigger] entries@[k].name@ by {
                        assert(before[j].name@ == entries@[j].name@);
                        if k < before.len() {
                            assert(before[j].name@ != before[k].name@);
                        }
                    }
                }
                assert(entries@.drop_last() =~= before);
            },
        }
        DocumentAttributes { entries }
    }

    /// Set the attribute, explicitly.
    pub fn insert(&mut self, name: Cow<'a, str>, value: AttributeValue<'a>)
        ensures
            final(self)@ == old(self)@.insert(name@, (value@, true)),
    {
        let mut held = DocumentAttributes::default();
        std::mem::swap(&mut held, self);
        *self = held.put(name, value, true);
    }

    /// Give the attribute a value that is no explicit one, if it has none yet.
    pub fn insert_default(&mut self, name: Cow<'a, str>, value: AttributeValue<'a>)
        ensures
            final(self)@ == (if old(self)@.contains_key(name@) {
                old(self)@
            } else {
                old(self)@.insert(name@, (value@, false))
            }),
    {
        if !self.contains_key(cow_str(&name)) {
            let mut held = DocumentAttributes::default();
            std::mem::swap(&mut held, self);
            *self = held.put(name, value, false);
        }
    }

    fn without(self, name: &str) -> (r: DocumentAttributes<'a>)
        ensures
            r@ == self@.remove(name@),
    {
        proof {
            use_type_invariant(&self);
            lemma_entries(self.entries@, name@);
        }
        let found = self.position(name);
        let mut entries = self.entries;
        match found {
            Some(i) => {
                proof {
                    lemma_entries_remove(entries@, i as int);
                }
                entries.remove(i);
            },
            None => {
                assert(entries_map(entries@).remove(name@) =~= entries_map(entries@));
            },
        }
        DocumentAttributes { entries }
    }

    /// Take the attribute away.
    pub fn remove(&mut self, name: &str)
        ensures
            final(self)@ == old(self)@.remove(name@),
    {
        let mut held = DocumentAttributes::default();
        std::mem::swap(&mut held, self);
        *self = held.without(name);
    }

    /// The same attributes, on their own.
    pub fn into_static(self) -> (r: DocumentAttributes<'static>)
        ensures
            r@ == self@,
    {
        proof {
            use_type_invariant(&self);
        }
        let mut entries: Vec<Attribute<'static>> = Vec::new();
        let mut i: usize = 0;
        while i < self.entries.len()
            invariant
                i <= self.entries@.len(),
                entries@.len() == i,
                forall|k: int|
                    #![trigger entries@[k]]
                    0 <= k < i ==> entries@[k].name@ == self.entries@[k].name@ && entries@[k].value@
                        == self.entries@[k].value@ && entries@[k].explicit
                        == self.entries@[k].explicit,
            decreases self.entries.len() - i,
        {
            let e = &self.entries[i];
            entries.push(
                Attribute {
                    name: own_cow(&e.name),
                    value: e.value.clone().into_static(),
                    explicit: e.explicit,
                },
            );
            i += 1;
        }
        proof {
            lemma_entries_alike(self.entries@, entries@);
        }
        DocumentAttributes { entries }
    }
}

/// Entries that hold the same make the same map.
proof fn lemma_entries_alike(a: Seq<Attribute<'_>>, b: Seq<Attribute<'_>>)
    requires
        distinct(a),
        a.len() == b.len(),
        forall|k: int|
            #![trigger b[k]]
            0 <= k < a.len() ==> b[k].name@ == a[k].name@ && b[k].value@ == a[k].value@
                && b[k].explicit == a[k].explicit,
    ensures
        distinct(b),
        entries_map(a) == entries_map(b),
    decreases a.len(),
{
    assert(distinct(b)) by {
        assert forall|i: int, j: int| 0 <= i < j < b.len() implies #[trigger] b[i].name@
            != #[trigger] b[j].name@ by {
            assert(a[i].name@ != a[j].name@);
        }
    }
    if a.len() > 0 {
        let before = a.drop_last();
        assert(distinct(before)) by {
            assert forall|i: int, j: int| 0 <= i < j < before.len() implies #[trigger] before[i].name@
                != #[trigger] before[j].name@ by {
                assert(a[i].name@ != a[j].name@);
            }
        }
        assert forall|k: int| #![trigger b.drop_last()[k]] 0 <= k < before.len() implies b.drop_last()[k].name@
            == before[k].name@ && b.drop_last()[k].value@ == before[k].value@
            && b.drop_last()[k].explicit == before[k].explicit by {
            assert(b[k] == b.drop_last()[k]);
        }
        lemma_entries_alike(before, b.drop_last());
        assert(b[b.len() - 1] == b.last());
    }
}

impl<'a> Clone for DocumentAttributes<'a> {
    /// The same attributes.
    fn clone(&self) -> (r: DocumentAttributes<'a>)
        ensures
            r@ == self@,
    {
        proof {
            use_type_invariant(self);
        }
        let mut entries: Vec<Attribute<'a>> = Vec::new();
        let mut i: usize = 0;
        while i < self.entries.len()
            invariant
                i <= self.entries@.len(),
                entries@.len() == i,
                forall|k: int|
                    #![trigger entries@[k]]
                    0 <= k < i ==> entries@[k].name@ == self.entries@[k].name@ && entries@[k].value@
                        == self.entries@[k].value@ && entries@[k].explicit
                        == self.entries@[k].explicit,
            decreases self.entries.len() - i,
        {
            let e = &self.entries[i];
            entries.push(
                Attribute { name: copy_cow(&e.name), value: e.value.clone(), explicit: e.explicit },
            );
            i += 1;
        }
        proof {
            lemma_entries_alike(self.entries@, entries@);
        }
        DocumentAttributes { entries }
    }
}

} // verus!
