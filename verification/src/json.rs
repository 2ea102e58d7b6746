use vstd::prelude::*;

verus! {

/// A JSON value. Numbers keep their text; an object keeps its members in order.
pub enum Json {
    Null,
    Bool(bool),
    Number(String),
    Str(String),
    Array(Vec<Json>),
    Object(Vec<(String, Json)>),
}

/// A JSON value as mathematics sees it: an object is a map from keys to values.
pub enum JsonV {
    Null,
    Bool(bool),
    Number(Seq<char>),
    Str(Seq<char>),
    Array(Seq<JsonV>),
    Object(Map<Seq<char>, JsonV>),
}

/// Position of the first member of `m` with key `k`, or -1.
pub open spec fn key_index(m: Seq<(String, Json)>, k: Seq<char>) -> int
    decreases m.len(),
{
    if m.len() == 0 {
        -1
    } else {
        let r = key_index(m.drop_last(), k);
        if r >= 0 { r } else if m.last().0@ == k { m.len() - 1 } else { -1 }
    }
}

impl Json {
    /// The mathematical value (the first of two members with one key counts).
    pub open spec fn view_json(self) -> JsonV
        decreases self,
    {
        match self {
            Json::Null => JsonV::Null,
            Json::Bool(b) => JsonV::Bool(b),
            Json::Number(n) => JsonV::Number(n@),
            Json::Str(s) => JsonV::Str(s@),
            Json::Array(v) => JsonV::Array(Seq::new(v@.len(), |i: int|
                if 0 <= i < v@.len() {
                    proof {
                        assert(decreases_to!(v => v@));
                        assert(decreases_to!(v@ => v@[i]));
                    }
                    v@[i].view_json()
                } else {
                    JsonV::Null
                })),
            Json::Object(m) => JsonV::Object(Map::new(
                |k: Seq<char>| key_index(m@, k) >= 0,
                |k: Seq<char>| {
                    let i = key_index(m@, k);
                    if 0 <= i < m@.len() {
                        proof {
                            assert(decreases_to!(m => m@));
                            assert(decreases_to!(m@ => m@[i]));
                            assert(decreases_to!(m@[i] => m@[i].1));
                        }
                        m@[i].1.view_json()
                    } else {
                        JsonV::Null
                    }
                },
            )),
        }
    }
}

impl View for Json {
    type V = JsonV;

    open spec fn view(&self) -> JsonV {
        self.view_json()
    }
}

/// The values of a sequence of JSON values.
pub open spec fn items_view(v: Seq<Json>) -> Seq<JsonV> {
    Seq::new(v.len(), |i: int| v[i]@)
}

/// The map of a sequence of members (the first of two members with one key counts).
pub open spec fn members_view(m: Seq<(String, Json)>) -> Map<Seq<char>, JsonV> {
    Map::new(|k: Seq<char>| key_index(m, k) >= 0, |k: Seq<char>| m[key_index(m, k)].1@)
}

/// The member `k` of an object, if it has one.
pub open spec fn field(j: JsonV, k: Seq<char>) -> Option<JsonV> {
    match j {
        JsonV::Object(m) => if m.contains_key(k) { Some(m[k]) } else { None },
        _ => None,
    }
}

/// The text of a string value.
pub open spec fn str_of(j: Option<JsonV>) -> Option<Seq<char>> {
    match j {
        Some(JsonV::Str(s)) => Some(s),
        _ => None,
    }
}

/// The items of an array value.
pub open spec fn items_of(j: Option<JsonV>) -> Option<Seq<JsonV>> {
    match j {
        Some(JsonV::Array(a)) => Some(a),
        _ => None,
    }
}

/// `j` with member `k` set to `v`; a null becomes an object of that one member; other
/// values are left as they are.
pub open spec fn with_field(j: JsonV, k: Seq<char>, v: JsonV) -> JsonV {
    match j {
        JsonV::Object(m) => JsonV::Object(m.insert(k, v)),
        JsonV::Null => JsonV::Object(Map::empty().insert(k, v)),
        _ => j,
    }
}

/// `j` without member `k` (other values are left as they are).
pub open spec fn without_field(j: JsonV, k: Seq<char>) -> JsonV {
    match j {
        JsonV::Object(m) => JsonV::Object(m.remove(k)),
        _ => j,
    }
}

/// The object view of an object value is the map of its members; an array's is the
/// values of its items.
pub proof fn lemma_view_shapes(j: Json)
    ensures
        j matches Json::Object(m) ==> j@ == JsonV::Object(members_view(m@)),
        j matches Json::Array(v) ==> j@ == JsonV::Array(items_view(v@)),
{
    match j {
        Json::Object(m) => {
            let jv = j.view_json();
            assert(jv is Object);
            let mm = jv->Object_0;
            assert forall|k: Seq<char>| #[trigger] mm.contains_key(k) == members_view(m@).contains_key(k) by {}
            assert forall|k: Seq<char>| mm.contains_key(k) implies #[trigger] mm[k] == members_view(m@)[k] by {
                lemma_key_index(m@, k);
            }
            assert(mm =~= members_view(m@));
        },
        Json::Array(v) => {
            let jv = j.view_json();
            assert(jv is Array);
            let a = jv->Array_0;
            assert(a.len() == v@.len());
            assert forall|i: int| 0 <= i < a.len() implies #[trigger] a[i] == items_view(v@)[i] by {}
            assert(a =~= items_view(v@));
        },
        _ => {},
    }
}

/// `key_index` is the first position holding the key, or -1 when none does.
pub proof fn lemma_key_index(m: Seq<(String, Json)>, k: Seq<char>)
    ensures
        -1 <= key_index(m, k) < m.len(),
        key_index(m, k) >= 0 ==> m[key_index(m, k)].0@ == k,
        forall|j: int| 0 <= j < m.len() && (j < key_index(m, k) || key_index(m, k) < 0) ==> (#[trigger] m[j]).0@ != k,
    decreases m.len(),
{
    if m.len() > 0 {
        lemma_key_index(m.drop_last(), k);
        assert forall|j: int| 0 <= j < m.len() - 1 implies #[trigger] m[j] == m.drop_last()[j] by {}
    }
}

/// Appending a member adds its key unless the key is already there.
pub proof fn lemma_members_push(m: Seq<(String, Json)>, x: (String, Json))
    ensures
        members_view(m.push(x)) == if members_view(m).contains_key(x.0@) {
            members_view(m)
        } else {
            members_view(m).insert(x.0@, x.1@)
        },
{
    assert(m.push(x).drop_last() =~= m);
    lemma_key_index(m, x.0@);
    assert forall|k: Seq<char>| key_index(m, k) >= 0 implies #[trigger] m.push(x)[key_index(m, k)] == m[key_index(m, k)] by {
        lemma_key_index(m, k);
    }
    if members_view(m).contains_key(x.0@) {
        assert(members_view(m.push(x)) =~= members_view(m));
    } else {
        assert(members_view(m.push(x)) =~= members_view(m).insert(x.0@, x.1@));
    }
}

/// Two member sequences with the same keys in the same places find every key in the same
/// place.
pub proof fn lemma_same_keys(m: Seq<(String, Json)>, t: Seq<(String, Json)>, k: Seq<char>)
    requires
        m.len() == t.len(),
        forall|j: int| 0 <= j < m.len() ==> (#[trigger] m[j]).0@ == t[j].0@,
    ensures
        key_index(m, k) == key_index(t, k),
    decreases m.len(),
{
    if m.len() > 0 {
        assert forall|j: int| 0 <= j < m.len() - 1 implies (#[trigger] m.drop_last()[j]).0@ == t.drop_last()[j].0@ by {
            assert(m.drop_last()[j] == m[j]);
            assert(t.drop_last()[j] == t[j]);
        }
        lemma_same_keys(m.drop_last(), t.drop_last(), k);
    }
}

/// Position of the first member with key `key`.
fn find_key(m: &Vec<(String, Json)>, key: &str) -> (r: Option<usize>)
    ensures
        match r {
            Some(i) => i == key_index(m@, key@),
            None => key_index(m@, key@) < 0,
        },
{
    proof { lemma_key_index(m@, key@); }
    let want = key.to_owned();
    let mut i: usize = 0;
    while i < m.len()
        invariant
            want@ == key@,
            i <= m@.len(),
            -1 <= key_index(m@, key@) < m@.len(),
            key_index(m@, key@) >= 0 ==> m@[key_index(m@, key@)].0@ == key@,
            forall|j: int| 0 <= j < m@.len() && (j < key_index(m@, key@) || key_index(m@, key@) < 0) ==> (#[trigger] m@[j]).0@ != key@,
            forall|j: int| 0 <= j < i ==> (#[trigger] m@[j]).0@ != key@,
        decreases m@.len() - i,
    {
        if m[i].0 == want {
            return Some(i);
        }
        i = i + 1;
    }
    None
}

/// Exchanges `*dst` with `v`, returning the former value.
pub fn replace_json(dst: &mut Json, v: Json) -> (r: Json)
    ensures
        *final(dst) == v,
        r == *old(dst),
{
    let mut v = v;
    std::mem::swap(dst, &mut v);
    v
}

impl Json {
    /// Member `key` of an object.
    pub fn get_field(&self, key: &str) -> (r: Option<&Json>)
        ensures
            match r {
                Some(v) => field(self@, key@) == Some(v@),
                None => field(self@, key@) is None,
            },
    {
        proof { lemma_view_shapes(*self); }
        match self {
            Json::Object(m) => {
                proof { lemma_key_index(m@, key@); }
                match find_key(m, key) {
                    Some(i) => Some(&m[i].1),
                    None => None,
                }
            },
            _ => None,
        }
    }

    /// The text of a string value.
    pub fn as_text(&self) -> (r: Option<&String>)
        ensures
            match r {
                Some(s) => str_of(Some(self@)) == Some(s@),
                None => str_of(Some(self@)) is None,
            },
    {
        match self {
            Json::Str(s) => Some(s),
            _ => None,
        }
    }

    /// The text of string member `key`.
    pub fn field_text(&self, key: &str) -> (r: Option<&String>)
        ensures
            match r {
                Some(s) => str_of(field(self@, key@)) == Some(s@),
                None => str_of(field(self@, key@)) is None,
            },
    {
        match self.get_field(key) {
            Some(v) => v.as_text(),
            None => None,
        }
    }

    /// Whether this is a null.
    pub fn is_null(&self) -> (r: bool)
        ensures
            r == (self@ == JsonV::Null),
    {
        match self {
            Json::Null => true,
            _ => false,
        }
    }

    /// Removes member `key` of an object and returns its value (other values are left as
    /// they are, and give none).
    pub fn take_field(&mut self, key: &str) -> (r: Option<Json>)
        ensures
            final(self)@ == without_field(old(self)@, key@),
            match r {
                Some(v) => field(old(self)@, key@) == Some(v@),
                None => field(old(self)@, key@) is None,
            },
    {
        let whole = replace_json(self, Json::Null);
        proof { lemma_view_shapes(whole); }
        match whole {
            Json::Object(members) => {
                let ghost orig = members@;
                let n = members.len();
                let mut rest = members;
                let mut out: Vec<(String, Json)> = Vec::new();
                let mut found: Option<Json> = None;
                let mut i: usize = 0;
                while rest.len() > 0
                    invariant
                        rest@ == orig.skip(i as int),
                        n == orig.len(),
                        i <= orig.len(),
                        members_view(out@) == members_view(orig.take(i as int)).remove(key@),
                        match found {
                            Some(v) => key_index(orig.take(i as int), key@) >= 0
                                && v@ == members_view(orig.take(i as int))[key@],
                            None => key_index(orig.take(i as int), key@) < 0,
                        },
                    decreases rest@.len(),
                {
                    let x = rest.remove(0);
                    proof {
                        assert(x == orig[i as int]);
                        assert(orig.take(i + 1) =~= orig.take(i as int).push(x));
                        assert(rest@ =~= orig.skip(i + 1));
                        lemma_members_push(orig.take(i as int), x);
                        lemma_key_index(orig.take(i as int), key@);
                        lemma_key_index(orig.take(i + 1), key@);
                    }
                    let is_key = crate::text::text_eq(x.0.as_str(), key);
                    if is_key {
                        if found.is_none() {
                            found = Some(x.1);
                        }
                        proof {
                            assert(members_view(out@) =~= members_view(orig.take(i + 1)).remove(key@));
                        }
                    } else {
                        let ghost before = out@;
                        proof { lemma_members_push(before, x); }
                        out.push(x);
                        proof {
                            assert(members_view(out@) =~= members_view(orig.take(i + 1)).remove(key@));
                        }
                    }
                    i = i + 1;
                }
                proof {
                    assert(orig.take(i as int) =~= orig);
                }
                *self = Json::Object(out);
                proof { lemma_view_shapes(*self); }
                found
            },
            other => {
                *self = other;
                found_none()
            },
        }
    }

    /// Sets member `key` of an object (a null becomes an object of that one member; other
    /// values are left as they are).
    pub fn set_field(&mut self, key: &str, v: Json)
        ensures
            final(self)@ == with_field(old(self)@, key@, v@),
    {
        let whole = replace_json(self, Json::Null);
        proof { lemma_view_shapes(whole); }
        match whole {
            Json::Object(members) => {
                let mut m = members;
                let ghost before = m@;
                match find_key(&m, key) {
                    Some(i) => {
                        proof { lemma_key_index(before, key@); }
                        let k = m[i].0.clone();
                        m.set(i, (k, v));
                        proof {
                            lemma_key_index(before, key@);
                            assert forall|k2: Seq<char>| key_index(m@, k2) == key_index(before, k2) by {
                                lemma_same_keys(m@, before, k2);
                            }
                            assert forall|k2: Seq<char>| key_index(before, k2) >= 0 implies key_index(before, k2) < before.len() by {
                                lemma_key_index(before, k2);
                            }
                            assert forall|k2: Seq<char>| #[trigger] members_view(m@).contains_key(k2) == members_view(before).insert(key@, v@).contains_key(k2) by {
                                if k2 == key@ {
                                    assert(key_index(before, key@) >= 0);
                                }
                            }
                            assert forall|k2: Seq<char>| members_view(m@).contains_key(k2) implies #[trigger] members_view(m@)[k2] == members_view(before).insert(key@, v@)[k2] by {
                                let idx = key_index(before, k2);
                                lemma_key_index(before, k2);
                                if idx == i as int {
                                    assert(k2 == key@);
                                } else {
                                    assert(m@[idx] == before[idx]);
                                    if k2 == key@ {
                                        assert(idx == i as int);
                                    }
                                }
                            }
                            assert(members_view(m@) =~= members_view(before).insert(key@, v@));
                        }
                    },
                    None => {
                        proof { lemma_key_index(before, key@); }
                        let x = (key.to_owned(), v);
                        proof { lemma_members_push(before, x); }
                        m.push(x);
                    },
                }
                *self = Json::Object(m);
                proof { lemma_view_shapes(*self); }
            },
            Json::Null => {
                let mut m: Vec<(String, Json)> = Vec::new();
                let x = (key.to_owned(), v);
                proof {
                    lemma_members_push(m@, x);
                    assert(members_view(m@) =~= Map::empty());
                }
                m.push(x);
                *self = Json::Object(m);
                proof { lemma_view_shapes(*self); }
            },
            other => {
                *self = other;
            },
        }
    }

    /// Removes member `key` of an object (other values are left as they are).
    pub fn remove_field(&mut self, key: &str)
        ensures
            final(self)@ == without_field(old(self)@, key@),
    {
        let _ = self.take_field(key);
    }
}

/// No value.
fn found_none() -> (r: Option<Json>)
    ensures
        r is None,
{
    None
}

impl Json {
    /// A copy of this value.
    pub fn deep_clone(&self) -> (r: Json)
        ensures
            r@ == self@,
        decreases self,
    {
        proof { lemma_view_shapes(*self); }
        match self {
            Json::Null => Json::Null,
            Json::Bool(b) => Json::Bool(*b),
            Json::Number(n) => Json::Number(n.clone()),
            Json::Str(s) => Json::Str(s.clone()),
            Json::Array(v) => {
                let mut out: Vec<Json> = Vec::new();
                let mut i: usize = 0;
                while i < v.len()
                    invariant
                        i <= v@.len(),
                        out@.len() == i,
                        forall|k: int| 0 <= k < i ==> (#[trigger] out@[k])@ == v@[k]@,
                        *self == Json::Array(*v),
                    decreases v@.len() - i,
                {
                    proof {
                        assert(decreases_to!(*self => self->Array_0));
                        assert(decreases_to!(self->Array_0 => v@));
                        assert(decreases_to!(v@ => v@[i as int]));
                    }
                    let c = v[i].deep_clone();
                    out.push(c);
                    i = i + 1;
                }
                let r = Json::Array(out);
                proof {
                    lemma_view_shapes(r);
                    assert(items_view(out@) =~= items_view(v@));
                }
                r
            },
            Json::Object(m) => {
                let mut out: Vec<(String, Json)> = Vec::new();
                let mut i: usize = 0;
                while i < m.len()
                    invariant
                        i <= m@.len(),
                        out@.len() == i,
                        forall|k: int| 0 <= k < i ==> (#[trigger] out@[k]).0@ == m@[k].0@ && out@[k].1@ == m@[k].1@,
                        *self == Json::Object(*m),
                    decreases m@.len() - i,
                {
                    proof {
                        assert(decreases_to!(*self => self->Object_0));
                        assert(decreases_to!(self->Object_0 => m@));
                        assert(decreases_to!(m@ => m@[i as int]));
                        assert(decreases_to!(m@[i as int] => m@[i as int].1));
                    }
                    let c = m[i].1.deep_clone();
                    let k = m[i].0.clone();
                    out.push((k, c));
                    i = i + 1;
                }
                let r = Json::Object(out);
                proof {
                    lemma_view_shapes(r);
                    assert forall|k: Seq<char>| key_index(out@, k) == key_index(m@, k) by {
                        lemma_same_keys(out@, m@, k);
                    }
                    assert forall|k: Seq<char>| key_index(m@, k) >= 0 implies key_index(m@, k) < m@.len() by {
                        lemma_key_index(m@, k);
                    }
                    assert(members_view(out@) =~= members_view(m@));
                }
                r
            },
        }
    }
}

/// A member reads back what was written to it, and writing or removing one member leaves
/// the others as they were.
pub proof fn law_field_after_write(j: JsonV, k: Seq<char>, v: JsonV, other: Seq<char>)
    requires
        j is Object || j is Null,
        other != k,
    ensures
        field(with_field(j, k, v), k) == Some(v),
        field(with_field(j, k, v), other) == field(j, other),
        field(without_field(j, k), k) is None,
        field(without_field(j, k), other) == field(j, other),
{
}

} // verus!
