//! Named binary tags: the tree of values of which saved worlds are made.

use crate::text::same;
use vstd::prelude::*;

verus! {

/// What a value holds.
pub enum Nbt {
    Byte(i8),
    Short(i16),
    Int(i32),
    Long(i64),
    Float(u32),
    Double(u64),
    Text(Seq<char>),
    ByteArray(Seq<i8>),
    IntArray(Seq<i32>),
    LongArray(Seq<i64>),
    List(Seq<Nbt>),
    Compound(Map<Seq<char>, Nbt>),
}

/// A value. Numbers with a fraction are held as their bits.
#[derive(Debug)]
pub enum Tag {
    Byte(i8),
    Short(i16),
    Int(i32),
    Long(i64),
    Float(u32),
    Double(u64),
    String(String),
    ByteArray(Vec<i8>),
    IntArray(Vec<i32>),
    LongArray(Vec<i64>),
    List(Vec<Tag>),
    Compound(Compound),
}

/// Values by name. Each name occurs once.
#[derive(Debug)]
pub struct Compound {
    entries: Vec<(String, Tag)>,
}

impl Tag {
    /// What the value holds.
    pub open spec fn model(self) -> Nbt
        decreases self, 0nat,
    {
        match self {
            Tag::Byte(n) => Nbt::Byte(n),
            Tag::Short(n) => Nbt::Short(n),
            Tag::Int(n) => Nbt::Int(n),
            Tag::Long(n) => Nbt::Long(n),
            Tag::Float(bits) => Nbt::Float(bits),
            Tag::Double(bits) => Nbt::Double(bits),
            Tag::String(text) => Nbt::Text(text@),
            Tag::ByteArray(items) => Nbt::ByteArray(items@),
            Tag::IntArray(items) => Nbt::IntArray(items@),
            Tag::LongArray(items) => Nbt::LongArray(items@),
            Tag::List(items) => Nbt::List(first_models(items@, items@.len())),
            Tag::Compound(compound) => Nbt::Compound(compound.contents()),
        }
    }
}

/// What the first `count` of some values hold.
pub open spec fn first_models(items: Seq<Tag>, count: nat) -> Seq<Nbt>
    decreases items, count,
{
    if count == 0 || count > items.len() {
        Seq::empty()
    } else {
        first_models(items, (count - 1) as nat).push(items[count - 1].model())
    }
}

/// What each of some values holds.
pub open spec fn models(items: Seq<Tag>) -> Seq<Nbt> {
    items.map_values(|item: Tag| item.model())
}

/// A list holds what its items hold.
pub broadcast proof fn lemma_list_model(items: Seq<Tag>)
    ensures
        #[trigger] first_models(items, items.len()) == models(items),
{
    lemma_first_models(items, items.len());
    assert(items.take(items.len() as int) == items);
}

proof fn lemma_first_models(items: Seq<Tag>, count: nat)
    requires
        count <= items.len(),
    ensures
        first_models(items, count) == models(items.take(count as int)),
    decreases count,
{
    if count > 0 {
        lemma_first_models(items, (count - 1) as nat);
        assert(models(items.take(count as int)) == models(items.take(count - 1)).push(
            items[count - 1].model(),
        ));
    } else {
        assert(models(items.take(0)) == Seq::<Nbt>::empty());
    }
}

/// What the first `count` of some named values hold.
spec fn named_models(entries: Seq<(String, Tag)>, count: nat) -> Map<Seq<char>, Nbt>
    decreases entries, count,
{
    if count == 0 || count > entries.len() {
        Map::empty()
    } else {
        named_models(entries, (count - 1) as nat).insert(
            entries[count - 1].0@,
            entries[count - 1].1.model(),
        )
    }
}

/// No two of some named values have the same name.
spec fn names_differ(entries: Seq<(String, Tag)>) -> bool {
    forall|i: int, j: int|
        0 <= i < j < entries.len() ==> (#[trigger] entries[i]).0@ != (#[trigger] entries[j]).0@
}

/// The first `count` named values hold a value under each of their names and no other.
proof fn lemma_named_models(entries: Seq<(String, Tag)>, count: nat)
    requires
        count <= entries.len(),
        names_differ(entries),
    ensures
        forall|i: int|
            0 <= i < count ==> {
                &&& named_models(entries, count).contains_key((#[trigger] entries[i]).0@)
                &&& named_models(entries, count)[entries[i].0@] == entries[i].1.model()
            },
        forall|name: Seq<char>| #[trigger]
            named_models(entries, count).contains_key(name) ==> exists|i: int|
                0 <= i < count && (#[trigger] entries[i]).0@ == name,
    decreases count,
{
    if count > 0 {
        lemma_named_models(entries, (count - 1) as nat);
        let before = named_models(entries, (count - 1) as nat);
        let all = named_models(entries, count);
        assert forall|i: int| 0 <= i < count implies {
            &&& all.contains_key((#[trigger] entries[i]).0@)
            &&& all[entries[i].0@] == entries[i].1.model()
        } by {
            if i < count - 1 {
                assert(entries[i].0@ != entries[count - 1].0@);
            }
        }
        assert forall|name: Seq<char>| #[trigger] all.contains_key(name) implies exists|i: int|
            0 <= i < count && (#[trigger] entries[i]).0@ == name by {
            if name == entries[count - 1].0@ {
            } else {
                assert(before.contains_key(name));
            }
        }
    }
}

/// Two lists of named values that agree on names and contents hold the same.
proof fn lemma_named_models_agree(
    left: Seq<(String, Tag)>,
    right: Seq<(String, Tag)>,
    count: nat,
)
    requires
        count <= left.len(),
        count <= right.len(),
        forall|i: int|
            0 <= i < count ==> (#[trigger] left[i]).0@ == right[i].0@ && left[i].1.model()
                == right[i].1.model(),
    ensures
        named_models(left, count) == named_models(right, count),
    decreases count,
{
    if count > 0 {
        lemma_named_models_agree(left, right, (count - 1) as nat);
        assert(left[count - 1].0@ == right[count - 1].0@);
    }
}

impl Compound {
    /// The values by name.
    pub closed spec fn contents(self) -> Map<Seq<char>, Nbt>
        decreases self, 0nat,
    {
        named_models(self.entries@, self.entries@.len())
    }

    #[verifier::type_invariant]
    spec fn each_name_once(self) -> bool {
        names_differ(self.entries@)
    }

    /// No values.
    pub fn new() -> (compound: Compound)
        ensures
            compound.contents() == Map::<Seq<char>, Nbt>::empty(),
    {
        Compound { entries: Vec::new() }
    }

    /// Whether there are no values.
    pub fn is_empty(&self) -> (empty: bool)
        ensures
            empty == (self.contents() == Map::<Seq<char>, Nbt>::empty()),
    {
        proof {
            use_type_invariant(self);
            lemma_named_models(self.entries@, self.entries@.len());
            if self.entries@.len() > 0 {
                assert(self.contents().contains_key(self.entries@[0].0@));
            }
        }
        self.entries.len() == 0
    }

    /// Where a name stands.
    fn position(&self, name: &str) -> (at: Option<usize>)
        ensures
            match at {
                Some(i) => i < self.entries@.len() && self.entries@[i as int].0@ == name@,
                None => forall|i: int|
                    0 <= i < self.entries@.len() ==> (#[trigger] self.entries@[i]).0@ != name@,
            },
    {
        let mut i: usize = 0;
        while i < self.entries.len()
            invariant
                i <= self.entries@.len(),
                forall|j: int| 0 <= j < i ==> (#[trigger] self.entries@[j]).0@ != name@,
            decreases self.entries@.len() - i,
        {
            if same(self.entries[i].0.as_str(), name) {
                return Some(i);
            }
            i = i + 1;
        }
        None
    }

    /// The value with a name.
    pub fn get(&self, name: &str) -> (found: Option<&Tag>)
        ensures
            match found {
                Some(tag) => self.contents().contains_key(name@) && self.contents()[name@]
                    == tag.model(),
                None => !self.contents().contains_key(name@),
            },
    {
        proof {
            use_type_invariant(self);
            lemma_named_models(self.entries@, self.entries@.len());
        }
        match self.position(name) {
            Some(i) => Some(&self.entries[i].1),
            None => None,
        }
    }

    /// Whether there is a value with a name.
    pub fn contains_key(&self, name: &str) -> (found: bool)
        ensures
            found == self.contents().contains_key(name@),
    {
        self.get(name).is_some()
    }

    /// Sets the value with a name.
    pub fn insert(&mut self, name: String, tag: Tag)
        ensures
            final(self).contents() == old(self).contents().insert(name@, tag.model()),
    {
        proof {
            use_type_invariant(&*self);
        }
        let ghost before = self.entries@;
        let at = self.position(name.as_str());
        let mut entries: Vec<(String, Tag)> = Vec::new();
        std::mem::swap(&mut entries, &mut self.entries);
        proof {
            lemma_named_models(before, before.len());
        }
        match at {
            Some(i) => {
                entries.set(i, (name, tag));
                proof {
                    assert(names_differ(entries@)) by {
                        assert forall|k: int, j: int| 0 <= k < j < entries@.len() implies (
                        #[trigger] entries@[k]).0@ != (#[trigger] entries@[j]).0@ by {
                            assert(before[k].0@ != before[j].0@);
                        }
                    }
                    lemma_named_models(entries@, entries@.len());
                    let got = named_models(entries@, entries@.len());
                    let wanted = named_models(before, before.len()).insert(name@, tag.model());
                    assert forall|n: Seq<char>| got.contains_key(n) implies wanted.contains_key(n)
                        && wanted[n] == got[n] by {
                        let k = choose|k: int|
                            0 <= k < entries@.len() && (#[trigger] entries@[k]).0@ == n;
                        if k != i {
                            assert(before[k] == entries@[k]);
                            assert(before[k].0@ != before[i as int].0@);
                        }
                    }
                    assert forall|n: Seq<char>| wanted.contains_key(n) implies got.contains_key(
                        n,
                    ) by {
                        if n == name@ {
                            assert(entries@[i as int].0@ == n);
                        } else {
                            let k = choose|k: int|
                                0 <= k < before.len() && (#[trigger] before[k]).0@ == n;
                            assert(entries@[k] == before[k]);
                        }
                    }
                    assert(got =~= wanted);
                }
            },
            None => {
                entries.push((name, tag));
                proof {
                    lemma_named_models_agree(before, entries@, before.len());
                    assert(names_differ(entries@)) by {
                        assert forall|k: int, j: int| 0 <= k < j < entries@.len() implies (
                        #[trigger] entries@[k]).0@ != (#[trigger] entries@[j]).0@ by {
                            if j < before.len() {
                                assert(before[k].0@ != before[j].0@);
                            } else {
                                assert(before[k].0@ != name@);
                            }
                        }
                    }
                }
            },
        }
        self.entries = entries;
    }

    /// Sets the value with a name, unless there is one.
    pub fn insert_if_absent(&mut self, name: String, tag: Tag)
        ensures
            final(self).contents() == if old(self).contents().contains_key(name@) {
                old(self).contents()
            } else {
                old(self).contents().insert(name@, tag.model())
            },
    {
        if !self.contains_key(name.as_str()) {
            self.insert(name, tag);
        }
    }

    /// Takes the value with a name out.
    pub fn remove(&mut self, name: &str) -> (found: Option<Tag>)
        ensures
            final(self).contents() == old(self).contents().remove(name@),
            match found {
                Some(tag) => old(self).contents().contains_key(name@) && old(self).contents()[name@]
                    == tag.model(),
                None => !old(self).contents().contains_key(name@),
            },
    {
        proof {
            use_type_invariant(&*self);
            lemma_named_models(self.entries@, self.entries@.len());
        }
        let ghost before = self.entries@;
        let at = match self.position(name) {
            Some(i) => i,
            None => {
                proof {
                    assert(self.contents().remove(name@) =~= self.contents());
                }
                return None;
            },
        };
        let mut entries: Vec<(String, Tag)> = Vec::new();
        std::mem::swap(&mut entries, &mut self.entries);
        let (_, tag) = entries.remove(at);
        proof {
            let shift = |k: int| if k < at {
                k
            } else {
                k + 1
            };
            assert forall|k: int| 0 <= k < entries@.len() implies #[trigger] entries@[k]
                == before[shift(k)] by {}
            assert(names_differ(entries@)) by {
                assert forall|k: int, j: int| 0 <= k < j < entries@.len() implies (
                #[trigger] entries@[k]).0@ != (#[trigger] entries@[j]).0@ by {
                    assert(before[shift(k)].0@ != before[shift(j)].0@);
                }
            }
            lemma_named_models(entries@, entries@.len());
            let got = named_models(entries@, entries@.len());
            let wanted = named_models(before, before.len()).remove(name@);
            assert forall|n: Seq<char>| got.contains_key(n) implies wanted.contains_key(n)
                && wanted[n] == got[n] by {
                let k = choose|k: int| 0 <= k < entries@.len() && (#[trigger] entries@[k]).0@ == n;
                assert(before[shift(k)].0@ == n);
                if shift(k) < at {
                    assert(before[shift(k)].0@ != before[at as int].0@);
                } else {
                    assert(before[at as int].0@ != before[shift(k)].0@);
                }
            }
            assert forall|n: Seq<char>| wanted.contains_key(n) implies got.contains_key(n) by {
                let k = choose|k: int| 0 <= k < before.len() && (#[trigger] before[k]).0@ == n;
                if k < at {
                    assert(entries@[k] == before[k]);
                } else {
                    assert(entries@[k - 1] == before[k]);
                }
            }
            assert(got =~= wanted);
        }
        self.entries = entries;
        Some(tag)
    }

    /// Takes over the values of another compound whose names are not used yet.
    pub fn add_missing(&mut self, other: &Compound)
        ensures
            final(self).contents() == other.contents().union_prefer_right(old(self).contents()),
    {
        proof {
            use_type_invariant(other);
        }
        let ghost base = self.contents();
        let ghost from = other.entries@;
        let mut i: usize = 0;
        proof {
            assert(Map::<Seq<char>, Nbt>::empty().union_prefer_right(base) =~= base);
        }
        while i < other.entries.len()
            invariant
                from == other.entries@,
                i <= from.len(),
                names_differ(from),
                self.contents() == named_models(from, i as nat).union_prefer_right(base),
            decreases from.len() - i,
        {
            let (name, tag) = &other.entries[i];
            proof {
                lemma_named_models(from, i as nat);
                if named_models(from, i as nat).contains_key(name@) {
                    let k = choose|k: int| 0 <= k < i && (#[trigger] from[k]).0@ == name@;
                    assert(from[k].0@ != from[i as int].0@);
                }
                let next = named_models(from, (i + 1) as nat);
                assert(next.union_prefer_right(base) =~= if base.contains_key(name@) {
                    self.contents()
                } else {
                    self.contents().insert(name@, tag.model())
                });
            }
            self.insert_if_absent(name.clone(), tag.clone());
            i = i + 1;
        }
    }

    /// Takes over the values of another compound, but for the one with the name `except`.
    pub fn add_all_but(&mut self, other: &Compound, except: &str)
        ensures
            final(self).contents() == old(self).contents().union_prefer_right(
                other.contents().remove(except@),
            ),
    {
        proof {
            use_type_invariant(other);
        }
        let ghost base = self.contents();
        let ghost from = other.entries@;
        let mut i: usize = 0;
        proof {
            assert(base.union_prefer_right(Map::<Seq<char>, Nbt>::empty().remove(except@))
                =~= base);
        }
        while i < other.entries.len()
            invariant
                from == other.entries@,
                i <= from.len(),
                self.contents() == base.union_prefer_right(
                    named_models(from, i as nat).remove(except@),
                ),
            decreases from.len() - i,
        {
            let (name, tag) = &other.entries[i];
            proof {
                let before = named_models(from, i as nat);
                let next = before.insert(name@, tag.model());
                assert(named_models(from, (i + 1) as nat) == next);
                if name@ == except@ {
                    assert(next.remove(except@) =~= before.remove(except@));
                } else {
                    assert(base.union_prefer_right(next.remove(except@)) =~= self.contents().insert(
                        name@,
                        tag.model(),
                    ));
                }
            }
            if !same(name.as_str(), except) {
                self.insert(name.clone(), tag.clone());
            }
            i = i + 1;
        }
    }

    /// The named values, one after another.
    pub fn into_entries(self) -> (entries: Vec<(String, Tag)>)
        ensures
            forall|i: int|
                0 <= i < entries@.len() ==> {
                    &&& self.contents().contains_key((#[trigger] entries@[i]).0@)
                    &&& self.contents()[entries@[i].0@] == entries@[i].1.model()
                },
            forall|i: int, j: int|
                0 <= i < j < entries@.len() ==> (#[trigger] entries@[i]).0@ != (
                #[trigger] entries@[j]).0@,
            forall|name: Seq<char>| #[trigger]
                self.contents().contains_key(name) ==> exists|i: int|
                    0 <= i < entries@.len() && (#[trigger] entries@[i]).0@ == name,
    {
        proof {
            use_type_invariant(&self);
            lemma_named_models(self.entries@, self.entries@.len());
        }
        self.entries
    }
}

impl Clone for Tag {
    fn clone(&self) -> (copy: Tag)
        ensures
            copy.model() == self.model(),
        decreases *self,
    {
        match self {
            Tag::Byte(n) => Tag::Byte(*n),
            Tag::Short(n) => Tag::Short(*n),
            Tag::Int(n) => Tag::Int(*n),
            Tag::Long(n) => Tag::Long(*n),
            Tag::Float(bits) => Tag::Float(*bits),
            Tag::Double(bits) => Tag::Double(*bits),
            Tag::String(text) => Tag::String(text.clone()),
            Tag::ByteArray(items) => {
                let copies = items.clone();
                assert(copies@ == items@);
                Tag::ByteArray(copies)
            },
            Tag::IntArray(items) => {
                let copies = items.clone();
                assert(copies@ == items@);
                Tag::IntArray(copies)
            },
            Tag::LongArray(items) => {
                let copies = items.clone();
                assert(copies@ == items@);
                Tag::LongArray(copies)
            },
            Tag::List(items) => {
                let mut copies: Vec<Tag> = Vec::new();
                let mut i: usize = 0;
                while i < items.len()
                    invariant
                        i <= items@.len(),
                        *self == Tag::List(*items),
                        models(copies@) == models(items@.take(i as int)),
                    decreases items@.len() - i,
                {
                    assert(decreases_to!(*self => self->List_0));
                    assert(decreases_to!(*items => items@));
                    assert(decreases_to!(items@ => items@[i as int]));
                    copies.push(items[i].clone());
                    proof {
                        assert(models(copies@) == models(items@.take(i as int)).push(
                            items@[i as int].model(),
                        ));
                        assert(models(items@.take(i + 1)) == models(items@.take(i as int)).push(
                            items@[i as int].model(),
                        ));
                    }
                    i = i + 1;
                }
                proof {
                    assert(items@.take(i as int) == items@);
                    lemma_list_model(copies@);
                    lemma_list_model(items@);
                }
                Tag::List(copies)
            },
            Tag::Compound(compound) => Tag::Compound(compound.clone()),
        }
    }
}

impl Clone for Compound {
    fn clone(&self) -> (copy: Compound)
        ensures
            copy.contents() == self.contents(),
        decreases *self,
    {
        proof {
            use_type_invariant(self);
        }
        let mut entries: Vec<(String, Tag)> = Vec::new();
        let mut i: usize = 0;
        while i < self.entries.len()
            invariant
                i <= self.entries@.len(),
                names_differ(self.entries@),
                entries@.len() == i,
                forall|k: int|
                    0 <= k < i ==> (#[trigger] entries@[k]).0@ == self.entries@[k].0@
                        && entries@[k].1.model() == self.entries@[k].1.model(),
            decreases self.entries@.len() - i,
        {
            let (name, tag) = &self.entries[i];
            let copy = tag.clone();
            entries.push((name.clone(), copy));
            i = i + 1;
        }
        proof {
            lemma_named_models_agree(entries@, self.entries@, self.entries@.len());
            assert(names_differ(entries@)) by {
                assert forall|k: int, j: int| 0 <= k < j < entries@.len() implies (
                #[trigger] entries@[k]).0@ != (#[trigger] entries@[j]).0@ by {
                    assert(self.entries@[k].0@ != self.entries@[j].0@);
                }
            }
        }
        Compound { entries }
    }
}

impl View for Compound {
    type V = Map<Seq<char>, Nbt>;

    open spec fn view(&self) -> Map<Seq<char>, Nbt> {
        self.contents()
    }
}

impl View for Tag {
    type V = Nbt;

    open spec fn view(&self) -> Nbt {
        self.model()
    }
}

/// A value holds what it was made with.
pub proof fn law_tag_holds_its_value(tag: Tag)
    ensures
        match tag {
            Tag::Byte(n) => tag.model() == Nbt::Byte(n),
            Tag::Short(n) => tag.model() == Nbt::Short(n),
            Tag::Int(n) => tag.model() == Nbt::Int(n),
            Tag::Long(n) => tag.model() == Nbt::Long(n),
            Tag::Float(bits) => tag.model() == Nbt::Float(bits),
            Tag::Double(bits) => tag.model() == Nbt::Double(bits),
            Tag::String(text) => tag.model() == Nbt::Text(text@),
            Tag::ByteArray(items) => tag.model() == Nbt::ByteArray(items@),
            Tag::IntArray(items) => tag.model() == Nbt::IntArray(items@),
            Tag::LongArray(items) => tag.model() == Nbt::LongArray(items@),
            Tag::List(items) => {
                &&& tag.model() matches Nbt::List(held)
                &&& held.len() == items@.len()
                &&& forall|i: int| 0 <= i < held.len() ==> #[trigger] held[i] == items@[i].model()
            },
            Tag::Compound(compound) => tag.model() == Nbt::Compound(compound.contents()),
        },
{
    if let Tag::List(items) = tag {
        lemma_list_model(items@);
        assert(tag.model() == Nbt::List(models(items@)));
    }
}

} // verus!
