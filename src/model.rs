use vstd::prelude::*;

verus! {

pub const TAG_END: u8 = 0;
pub const TAG_BYTE: u8 = 1;
pub const TAG_SHORT: u8 = 2;
pub const TAG_INT: u8 = 3;
pub const TAG_LONG: u8 = 4;
pub const TAG_FLOAT: u8 = 5;
pub const TAG_DOUBLE: u8 = 6;
pub const TAG_BYTE_ARRAY: u8 = 7;
pub const TAG_STRING: u8 = 8;
pub const TAG_LIST: u8 = 9;
pub const TAG_COMPOUND: u8 = 10;
pub const TAG_INT_ARRAY: u8 = 11;

/// A decoded value as mathematics sees it. Integers of every width are
/// `int`; a float is the integer of its IEEE-754 bit pattern.
pub enum ValueModel {
    Byte(int),
    Short(int),
    Int(int),
    Long(int),
    Float(int),
    Double(int),
    ByteArray(Seq<u8>),
    String(Seq<char>),
    List(ListModel),
    Compound(Map<Seq<char>, ValueModel>),
    IntArray(Seq<int>),
}

/// A list as mathematics sees it: the empty list without an element type, or
/// an element tag and the elements in order.
pub enum ListModel {
    Empty,
    Items(u8, Seq<ValueModel>),
}

/// A typed value: one variant per tag type other than End.
#[derive(Debug)]
pub enum Value {
    Byte(i8),
    Short(i16),
    Int(i32),
    Long(i64),
    /// The IEEE-754 bit pattern of a single-precision float.
    Float(u32),
    /// The IEEE-754 bit pattern of a double-precision float.
    Double(u64),
    ByteArray(Vec<u8>),
    String(String),
    List(List),
    Compound(Compound),
    IntArray(Vec<i32>),
}

/// The root value of a document with its name, which is almost always empty.
pub struct RootValue {
    pub name: String,
    pub value: Value,
}

/// A homogeneous list. `Empty` is a list of no elements declared with the End
/// tag as its element type.
#[derive(Debug)]
pub enum List {
    Empty,
    Byte(Vec<i8>),
    Short(Vec<i16>),
    Int(Vec<i32>),
    Long(Vec<i64>),
    Float(Vec<u32>),
    Double(Vec<u64>),
    ByteArray(Vec<Vec<u8>>),
    String(Vec<String>),
    List(Vec<List>),
    Compound(Vec<Compound>),
    IntArray(Vec<Vec<i32>>),
}

/// A mapping from names to values with unique names.
#[derive(Debug)]
pub struct Compound {
    entries: Vec<(String, Value)>,
}

/// The values that a sequence of nested lists stands for.
pub open spec fn lists_model(s: Seq<List>) -> Seq<ValueModel>
    decreases s,
{
    if s.len() == 0 {
        Seq::empty()
    } else {
        lists_model(s.drop_last()).push(ValueModel::List(s.last().model()))
    }
}

/// The values that a sequence of compounds stands for.
pub open spec fn compounds_model(s: Seq<Compound>) -> Seq<ValueModel>
    decreases s,
{
    if s.len() == 0 {
        Seq::empty()
    } else {
        compounds_model(s.drop_last()).push(ValueModel::Compound(s.last().model()))
    }
}

/// The map that a sequence of entries stands for, later entries winning.
pub open spec fn entries_model(s: Seq<(String, Value)>) -> Map<Seq<char>, ValueModel>
    decreases s,
{
    if s.len() == 0 {
        Map::empty()
    } else {
        entries_model(s.drop_last()).insert(s.last().0@, s.last().1.model())
    }
}

impl Value {
    /// What this value stands for.
    pub open spec fn model(&self) -> ValueModel
        decreases self,
    {
        match self {
            Value::Byte(x) => ValueModel::Byte(*x as int),
            Value::Short(x) => ValueModel::Short(*x as int),
            Value::Int(x) => ValueModel::Int(*x as int),
            Value::Long(x) => ValueModel::Long(*x as int),
            Value::Float(x) => ValueModel::Float(*x as int),
            Value::Double(x) => ValueModel::Double(*x as int),
            Value::ByteArray(v) => ValueModel::ByteArray(v@),
            Value::String(s) => ValueModel::String(s@),
            Value::List(l) => ValueModel::List(l.model()),
            Value::Compound(c) => ValueModel::Compound(c.model()),
            Value::IntArray(v) => ValueModel::IntArray(v@.map_values(|x: i32| x as int)),
        }
    }
}

impl List {
    /// What this list stands for.
    pub open spec fn model(&self) -> ListModel
        decreases self,
    {
        match self {
            List::Empty => ListModel::Empty,
            List::Byte(v) => ListModel::Items(
                TAG_BYTE,
                v@.map_values(|x: i8| ValueModel::Byte(x as int)),
            ),
            List::Short(v) => ListModel::Items(
                TAG_SHORT,
                v@.map_values(|x: i16| ValueModel::Short(x as int)),
            ),
            List::Int(v) => ListModel::Items(
                TAG_INT,
                v@.map_values(|x: i32| ValueModel::Int(x as int)),
            ),
            List::Long(v) => ListModel::Items(
                TAG_LONG,
                v@.map_values(|x: i64| ValueModel::Long(x as int)),
            ),
            List::Float(v) => ListModel::Items(
                TAG_FLOAT,
                v@.map_values(|x: u32| ValueModel::Float(x as int)),
            ),
            List::Double(v) => ListModel::Items(
                TAG_DOUBLE,
                v@.map_values(|x: u64| ValueModel::Double(x as int)),
            ),
            List::ByteArray(v) => ListModel::Items(
                TAG_BYTE_ARRAY,
                v@.map_values(|x: Vec<u8>| ValueModel::ByteArray(x@)),
            ),
            List::String(v) => ListModel::Items(
                TAG_STRING,
                v@.map_values(|x: String| ValueModel::String(x@)),
            ),
            List::List(v) => ListModel::Items(TAG_LIST, lists_model(v@)),
            List::Compound(v) => ListModel::Items(TAG_COMPOUND, compounds_model(v@)),
            List::IntArray(v) => ListModel::Items(
                TAG_INT_ARRAY,
                v@.map_values(|x: Vec<i32>| ValueModel::IntArray(x@.map_values(|y: i32| y as int))),
            ),
        }
    }
}

impl Value {
    /// The tag-type code of this value.
    pub open spec fn tag(&self) -> u8 {
        match self {
            Value::Byte(_) => TAG_BYTE,
            Value::Short(_) => TAG_SHORT,
            Value::Int(_) => TAG_INT,
            Value::Long(_) => TAG_LONG,
            Value::Float(_) => TAG_FLOAT,
            Value::Double(_) => TAG_DOUBLE,
            Value::ByteArray(_) => TAG_BYTE_ARRAY,
            Value::String(_) => TAG_STRING,
            Value::List(_) => TAG_LIST,
            Value::Compound(_) => TAG_COMPOUND,
            Value::IntArray(_) => TAG_INT_ARRAY,
        }
    }
}

impl List {
    /// An empty list of the simple element tag `t`.
    pub fn with_kind(t: u8) -> (r: List)
        requires
            (1 <= t && t <= 8) || t == 11,
        ensures
            r.model() == ListModel::Items(t, Seq::<ValueModel>::empty()),
    {
        if t == TAG_BYTE {
            let v: Vec<i8> = Vec::new();
            assert(v@.map_values(|x: i8| ValueModel::Byte(x as int)) =~= Seq::<ValueModel>::empty());
            List::Byte(v)
        } else if t == TAG_SHORT {
            let v: Vec<i16> = Vec::new();
            assert(v@.map_values(|x: i16| ValueModel::Short(x as int)) =~= Seq::<ValueModel>::empty());
            List::Short(v)
        } else if t == TAG_INT {
            let v: Vec<i32> = Vec::new();
            assert(v@.map_values(|x: i32| ValueModel::Int(x as int)) =~= Seq::<ValueModel>::empty());
            List::Int(v)
        } else if t == TAG_LONG {
            let v: Vec<i64> = Vec::new();
            assert(v@.map_values(|x: i64| ValueModel::Long(x as int)) =~= Seq::<ValueModel>::empty());
            List::Long(v)
        } else if t == TAG_FLOAT {
            let v: Vec<u32> = Vec::new();
            assert(v@.map_values(|x: u32| ValueModel::Float(x as int)) =~= Seq::<ValueModel>::empty());
            List::Float(v)
        } else if t == TAG_DOUBLE {
            let v: Vec<u64> = Vec::new();
            assert(v@.map_values(|x: u64| ValueModel::Double(x as int)) =~= Seq::<ValueModel>::empty());
            List::Double(v)
        } else if t == TAG_BYTE_ARRAY {
            let v: Vec<Vec<u8>> = Vec::new();
            assert(v@.map_values(|x: Vec<u8>| ValueModel::ByteArray(x@)) =~= Seq::<ValueModel>::empty());
            List::ByteArray(v)
        } else if t == TAG_STRING {
            let v: Vec<String> = Vec::new();
            assert(v@.map_values(|x: String| ValueModel::String(x@)) =~= Seq::<ValueModel>::empty());
            List::String(v)
        } else {
            let v: Vec<Vec<i32>> = Vec::new();
            assert(v@.map_values(|x: Vec<i32>| ValueModel::IntArray(x@.map_values(|y: i32| y as int))) =~= Seq::<ValueModel>::empty());
            List::IntArray(v)
        }
    }

    /// Appends `v` to a list of simple elements of `v`'s own tag.
    pub fn push_value(&mut self, v: Value)
        requires
            old(self).model() matches ListModel::Items(t, _) && t == v.tag(),
            (1 <= v.tag() && v.tag() <= 8) || v.tag() == 11,
        ensures
            old(self).model() matches ListModel::Items(t, s) && final(self).model()
                == ListModel::Items(t, s.push(v.model())),
    {
        match self {
            List::Byte(items) => match v {
                Value::Byte(x) => {
                    let ghost before = items@;
                    items.push(x);
                    assert(items@.map_values(|x: i8| ValueModel::Byte(x as int)) =~= before.map_values(|x: i8| ValueModel::Byte(x as int)).push(v.model()));
                },
                _ => {},
            },
            List::Short(items) => match v {
                Value::Short(x) => {
                    let ghost before = items@;
                    items.push(x);
                    assert(items@.map_values(|x: i16| ValueModel::Short(x as int)) =~= before.map_values(|x: i16| ValueModel::Short(x as int)).push(v.model()));
                },
                _ => {},
            },
            List::Int(items) => match v {
                Value::Int(x) => {
                    let ghost before = items@;
                    items.push(x);
                    assert(items@.map_values(|x: i32| ValueModel::Int(x as int)) =~= before.map_values(|x: i32| ValueModel::Int(x as int)).push(v.model()));
                },
                _ => {},
            },
            List::Long(items) => match v {
                Value::Long(x) => {
                    let ghost before = items@;
                    items.push(x);
                    assert(items@.map_values(|x: i64| ValueModel::Long(x as int)) =~= before.map_values(|x: i64| ValueModel::Long(x as int)).push(v.model()));
                },
                _ => {},
            },
            List::Float(items) => match v {
                Value::Float(x) => {
                    let ghost before = items@;
                    items.push(x);
                    assert(items@.map_values(|x: u32| ValueModel::Float(x as int)) =~= before.map_values(|x: u32| ValueModel::Float(x as int)).push(v.model()));
                },
                _ => {},
            },
            List::Double(items) => match v {
                Value::Double(x) => {
                    let ghost before = items@;
                    items.push(x);
                    assert(items@.map_values(|x: u64| ValueModel::Double(x as int)) =~= before.map_values(|x: u64| ValueModel::Double(x as int)).push(v.model()));
                },
                _ => {},
            },
            List::ByteArray(items) => match v {
                Value::ByteArray(x) => {
                    let ghost m = x@;
                    let ghost before = items@;
                    items.push(x);
                    assert(items@.map_values(|x: Vec<u8>| ValueModel::ByteArray(x@)) =~= before.map_values(|x: Vec<u8>| ValueModel::ByteArray(x@)).push(
                        ValueModel::ByteArray(m),
                    ));
                },
                _ => {},
            },
            List::String(items) => match v {
                Value::String(x) => {
                    let ghost m = x@;
                    let ghost before = items@;
                    items.push(x);
                    assert(items@.map_values(|x: String| ValueModel::String(x@)) =~= before.map_values(|x: String| ValueModel::String(x@)).push(
                        ValueModel::String(m),
                    ));
                },
                _ => {},
            },
            List::IntArray(items) => match v {
                Value::IntArray(x) => {
                    let ghost m = x@.map_values(|y: i32| y as int);
                    let ghost before = items@;
                    items.push(x);
                    assert(items@.map_values(
                        |x: Vec<i32>| ValueModel::IntArray(x@.map_values(|y: i32| y as int)),
                    ) =~= before.map_values(
                        |x: Vec<i32>| ValueModel::IntArray(x@.map_values(|y: i32| y as int)),
                    ).push(ValueModel::IntArray(m)));
                },
                _ => {},
            },
            _ => {},
        }
    }
}

/// Whether no two entries share a name.
pub open spec fn unique_names(s: Seq<(String, Value)>) -> bool {
    forall|i: int, j: int| 0 <= i < j < s.len() ==> s[i].0@ != s[j].0@
}

proof fn lemma_entries_lookup(s: Seq<(String, Value)>, i: int)
    requires
        unique_names(s),
        0 <= i < s.len(),
    ensures
        entries_model(s).contains_key(s[i].0@),
        entries_model(s)[s[i].0@] == s[i].1.model(),
    decreases s.len(),
{
    if i < s.len() - 1 {
        lemma_entries_lookup(s.drop_last(), i);
    }
}

proof fn lemma_entries_absent(s: Seq<(String, Value)>, k: Seq<char>)
    requires
        forall|i: int| 0 <= i < s.len() ==> s[i].0@ != k,
    ensures
        !entries_model(s).contains_key(k),
    decreases s.len(),
{
    if s.len() > 0 {
        lemma_entries_absent(s.drop_last(), k);
    }
}

proof fn lemma_entries_len(s: Seq<(String, Value)>)
    requires
        unique_names(s),
    ensures
        entries_model(s).dom().finite(),
        entries_model(s).len() == s.len(),
    decreases s.len(),
{
    if s.len() > 0 {
        let d = s.drop_last();
        lemma_entries_len(d);
        lemma_entries_absent(d, s.last().0@);
    }
}

proof fn lemma_entries_update(s: Seq<(String, Value)>, i: int, e: (String, Value))
    requires
        unique_names(s),
        0 <= i < s.len(),
        s[i].0@ == e.0@,
    ensures
        unique_names(s.update(i, e)),
        entries_model(s.update(i, e)) == entries_model(s).insert(e.0@, e.1.model()),
    decreases s.len(),
{
    let u = s.update(i, e);
    let d = s.drop_last();
    assert(u.drop_last() =~= if i == s.len() - 1 { d } else { d.update(i, e) });
    if i < s.len() - 1 {
        lemma_entries_update(d, i, e);
    }
    assert(entries_model(u) =~= entries_model(s).insert(e.0@, e.1.model()));
}

impl Compound {
    #[verifier::type_invariant]
    spec fn names_unique(&self) -> bool {
        unique_names(self.entries@)
    }

    /// What this compound stands for.
    pub closed spec fn model(&self) -> Map<Seq<char>, ValueModel>
        decreases self,
    {
        entries_model(self.entries@)
    }

    /// An empty compound.
    pub fn new() -> (r: Compound)
        ensures
            r.model() == Map::<Seq<char>, ValueModel>::empty(),
    {
        Compound { entries: Vec::new() }
    }

    /// How many names the compound holds.
    pub fn len(&self) -> (r: usize)
        ensures
            r == self.model().len(),
            self.model().dom().finite(),
    {
        proof {
            use_type_invariant(self);
            lemma_entries_len(self.entries@);
        }
        self.entries.len()
    }

    /// Whether the compound holds no names.
    pub fn is_empty(&self) -> (r: bool)
        ensures
            r == (self.model().len() == 0),
    {
        self.len() == 0
    }

    fn find(&self, name: &String) -> (r: Option<usize>)
        ensures
            match r {
                Some(i) => i < self.entries.len() && self.entries@[i as int].0@ == name@,
                None => forall|i: int| 0 <= i < self.entries.len() ==> self.entries@[i].0@ != name@,
            },
    {
        let mut i: usize = 0;
        while i < self.entries.len()
            invariant
                i <= self.entries.len(),
                forall|j: int| 0 <= j < i ==> self.entries@[j].0@ != name@,
            decreases self.entries.len() - i,
        {
            if self.entries[i].0 == *name {
                return Some(i);
            }
            i = i + 1;
        }
        None
    }

    /// The value stored under `name`, if any.
    pub fn get(&self, name: &str) -> (r: Option<&Value>)
        ensures
            r is Some <==> self.model().contains_key(name@),
            r matches Some(v) ==> v.model() == self.model()[name@],
    {
        proof {
            use_type_invariant(self);
        }
        let key = name.to_owned();
        match self.find(&key) {
            Some(i) => {
                proof {
                    lemma_entries_lookup(self.entries@, i as int);
                }
                Some(&self.entries[i].1)
            },
            None => {
                proof {
                    lemma_entries_absent(self.entries@, name@);
                }
                None
            },
        }
    }

    /// The entries of the compound as name and value pairs, each name once,
    /// in no particular order.
    pub fn entries(&self) -> (r: &Vec<(String, Value)>)
        ensures
            entries_model(r@) == self.model(),
            unique_names(r@),
    {
        proof {
            use_type_invariant(self);
        }
        &self.entries
    }

    /// The names the compound holds, each once, in no particular order.
    pub fn keys(&self) -> (r: Vec<String>)
        ensures
            r@.len() == self.model().len(),
            forall|i: int| 0 <= i < r@.len() ==> self.model().contains_key(#[trigger] r@[i]@),
            forall|k: Seq<char>|
                self.model().contains_key(k) ==> exists|i: int|
                    0 <= i < r@.len() && #[trigger] r@[i]@ == k,
            forall|i: int, j: int| 0 <= i < j < r@.len() ==> r@[i]@ != r@[j]@,
    {
        proof {
            use_type_invariant(self);
            lemma_entries_len(self.entries@);
        }
        let mut r: Vec<String> = Vec::new();
        let mut i: usize = 0;
        while i < self.entries.len()
            invariant
                i <= self.entries.len(),
                r@.len() == i,
                forall|j: int| 0 <= j < i ==> #[trigger] r@[j]@ == self.entries@[j].0@,
            decreases self.entries.len() - i,
        {
            r.push(self.entries[i].0.clone());
            i = i + 1;
        }
        proof {
            let s = self.entries@;
            assert forall|i: int| 0 <= i < r@.len() implies self.model().contains_key(
                #[trigger] r@[i]@,
            ) by {
                lemma_entries_lookup(s, i);
            }
            assert forall|k: Seq<char>| self.model().contains_key(k) implies exists|i: int|
                0 <= i < r@.len() && #[trigger] r@[i]@ == k by {
                if forall|i: int| 0 <= i < s.len() ==> s[i].0@ != k {
                    lemma_entries_absent(s, k);
                } else {
                    let i = choose|i: int| 0 <= i < s.len() && s[i].0@ == k;
                    assert(r@[i]@ == k);
                }
            }
        }
        r
    }

    /// Stores `value` under `name`, replacing what was there, which it
    /// returns.
    pub fn insert(&mut self, name: String, value: Value) -> (r: Option<Value>)
        ensures
            final(self).model() == old(self).model().insert(name@, value.model()),
            r is Some <==> old(self).model().contains_key(name@),
            r matches Some(v) ==> v.model() == old(self).model()[name@],
    {
        let mut held = Compound::new();
        std::mem::swap(self, &mut held);
        proof {
            use_type_invariant(&held);
        }
        let found = held.find(&name);
        let Compound { mut entries } = held;
        match found {
            Some(i) => {
                proof {
                    lemma_entries_lookup(entries@, i as int);
                    lemma_entries_update(entries@, i as int, (name, value));
                }
                let ghost before = entries@;
                let old_entry = entries.remove(i);
                entries.insert(i, (name, value));
                proof {
                    assert(entries@ =~= before.update(i as int, (name, value)));
                }
                *self = Compound { entries };
                Some(old_entry.1)
            },
            None => {
                proof {
                    lemma_entries_absent(entries@, name@);
                }
                let ghost before = entries@;
                entries.push((name, value));
                proof {
                    assert(entries@.drop_last() =~= before);
                }
                *self = Compound { entries };
                None
            },
        }
    }
}

} // verus!
