//! Payload schemas collected from several profiles for export: one schema per
//! payload name, and every schema titled with a type name no other payload
//! uses. Profiles may share a payload only with an identical schema.
use crate::text::str_eq;
use serde_json::Value;
use vstd::prelude::*;
use vstd::string::{StringExecFns, StringSliceAdditionalSpecFns};
use vstd::utf8::encode_utf8;

verus! {

/// Whether `serde_json::Value`'s `==` holds between two values.
pub uninterp spec fn json_equal(a: Value, b: Value) -> bool;

/// The string under the `title` key of a JSON object, if there is one.
pub uninterp spec fn json_title(v: Value) -> Option<Seq<char>>;

/// `==` on `serde_json::Value`, named `json_equal`. The comparison is an
/// equivalence (`Value` is `Eq`: its numbers are never NaN), so a value
/// compares equal to itself.
#[verifier::external_body]
fn same_json(a: &Value, b: &Value) -> (r: bool)
    ensures
        r == json_equal(*a, *b),
        *a == *b ==> r,
{
    a == b
}

/// `value["title"].as_str()`, named `json_title`: the string under the
/// `title` key when the value is an object holding one. Indexing a value
/// without that key yields `null`, which has no string.
#[verifier::external_body]
fn title_of(v: &Value) -> (r: Option<&str>)
    ensures
        match r {
            Some(t) => json_title(*v) == Some(t@),
            None => json_title(*v) is None,
        },
{
    v["title"].as_str()
}

/// `a` sorts before `b`, byte by byte, a prefix first.
pub open spec fn bytes_less(a: Seq<u8>, b: Seq<u8>) -> bool
    decreases a.len(),
{
    if a.len() == 0 {
        b.len() > 0
    } else if b.len() == 0 {
        false
    } else if a[0] != b[0] {
        a[0] < b[0]
    } else {
        bytes_less(a.drop_first(), b.drop_first())
    }
}

/// The byte order is strict and total: of two different sequences exactly
/// one sorts first.
pub proof fn lemma_bytes_order(a: Seq<u8>, b: Seq<u8>)
    ensures
        !(bytes_less(a, b) && bytes_less(b, a)),
        bytes_less(a, b) ==> a != b,
        a != b ==> bytes_less(a, b) || bytes_less(b, a),
    decreases a.len(),
{
    if a.len() > 0 && b.len() > 0 && a[0] == b[0] {
        lemma_bytes_order(a.drop_first(), b.drop_first());
        if a.drop_first() == b.drop_first() {
            assert(a =~= seq![a[0]] + a.drop_first());
            assert(b =~= seq![b[0]] + b.drop_first());
        }
    } else if a.len() == 0 && b.len() == 0 {
        assert(a =~= b);
    }
}

/// The byte order is transitive.
pub proof fn lemma_bytes_less_trans(a: Seq<u8>, b: Seq<u8>, c: Seq<u8>)
    requires
        bytes_less(a, b),
        bytes_less(b, c),
    ensures
        bytes_less(a, c),
    decreases a.len(),
{
    if a.len() > 0 && b.len() > 0 && c.len() > 0 && a[0] == b[0] && b[0] == c[0] {
        lemma_bytes_less_trans(a.drop_first(), b.drop_first(), c.drop_first());
    }
}

/// Whether `a` sorts before `b`, byte by byte.
fn str_less(a: &str, b: &str) -> (r: bool)
    ensures
        r == bytes_less(a.spec_bytes(), b.spec_bytes()),
{
    let x = a.as_bytes();
    let y = b.as_bytes();
    let mut i: usize = 0;
    proof {
        assert(x@.subrange(0, x@.len() as int) =~= x@);
        assert(y@.subrange(0, y@.len() as int) =~= y@);
    }
    while i < x.len() && i < y.len()
        invariant
            x@ == a.spec_bytes(),
            y@ == b.spec_bytes(),
            0 <= i <= x@.len(),
            i <= y@.len(),
            x@.subrange(0, i as int) == y@.subrange(0, i as int),
            bytes_less(x@, y@) == bytes_less(x@.subrange(i as int, x@.len() as int), y@.subrange(
                i as int,
                y@.len() as int,
            )),
        decreases x@.len() - i,
    {
        let ghost xs = x@.subrange(i as int, x@.len() as int);
        let ghost ys = y@.subrange(i as int, y@.len() as int);
        if x[i] != y[i] {
            assert(xs[0] == x@[i as int] && ys[0] == y@[i as int]);
            return x[i] < y[i];
        }
        proof {
            assert(xs.drop_first() =~= x@.subrange(i + 1, x@.len() as int));
            assert(ys.drop_first() =~= y@.subrange(i + 1, y@.len() as int));
            assert(x@.subrange(0, i + 1) =~= x@.subrange(0, i as int).push(x@[i as int]));
            assert(y@.subrange(0, i + 1) =~= y@.subrange(0, i as int).push(y@[i as int]));
        }
        i += 1;
    }
    i < y.len()
}

/// The bytes of an entry's payload name.
pub open spec fn key_bytes(e: (Seq<char>, Value)) -> Seq<u8> {
    encode_utf8(e.0)
}

/// Schemas registered so far, each under its payload name, in the byte
/// order of the names.
#[derive(Clone, PartialEq)]
pub struct Schemas {
    entries: Vec<(&'static str, Value)>,
}

/// Some entry has the payload name `name`.
pub open spec fn has_name(entries: Seq<(Seq<char>, Value)>, name: Seq<char>) -> bool {
    exists|i: int| 0 <= i < entries.len() && (#[trigger] entries[i]).0 == name
}

/// Some entry's schema has the title `title`.
pub open spec fn has_title(entries: Seq<(Seq<char>, Value)>, title: Seq<char>) -> bool {
    exists|i: int| 0 <= i < entries.len() && json_title((#[trigger] entries[i]).1) == Some(title)
}

impl Schemas {
    /// The registered names and schemas, in the byte order of the names.
    pub closed spec fn spec_entries(&self) -> Seq<(Seq<char>, Value)> {
        self.entries@.map_values(|e: (&'static str, Value)| (e.0@, e.1))
    }

    /// The names are in strictly increasing byte order, so none is
    /// registered twice.
    pub open spec fn wf(&self) -> bool {
        forall|i: int, j: int|
            0 <= i < j < self.spec_entries().len() ==> bytes_less(
                key_bytes(#[trigger] self.spec_entries()[i]),
                key_bytes(#[trigger] self.spec_entries()[j]),
            )
    }

    /// Entries of a well-formed registry have different names.
    pub proof fn lemma_names_differ(&self, i: int, j: int)
        requires
            self.wf(),
            0 <= i < self.spec_entries().len(),
            0 <= j < self.spec_entries().len(),
            i != j,
        ensures
            self.spec_entries()[i].0 != self.spec_entries()[j].0,
    {
        let (a, b) = if i < j { (i, j) } else { (j, i) };
        lemma_bytes_order(key_bytes(self.spec_entries()[a]), key_bytes(self.spec_entries()[b]));
    }

    /// No schemas.
    pub fn new() -> (r: Self)
        ensures
            r.wf(),
            r.spec_entries() == Seq::<(Seq<char>, Value)>::empty(),
    {
        let r = Schemas { entries: Vec::new() };
        assert(r.spec_entries() =~= Seq::<(Seq<char>, Value)>::empty());
        r
    }

    /// How many payloads are registered.
    pub fn len(&self) -> (r: usize)
        ensures
            r == self.spec_entries().len(),
    {
        self.entries.len()
    }

    /// The position of `name`'s entry, if it is registered.
    fn position(&self, name: &str) -> (r: Option<usize>)
        ensures
            match r {
                Some(i) => i < self.spec_entries().len() && self.spec_entries()[i as int].0 == name@,
                None => !has_name(self.spec_entries(), name@),
            },
    {
        let mut i: usize = 0;
        while i < self.entries.len()
            invariant
                0 <= i <= self.entries@.len(),
                forall|k: int| 0 <= k < i ==> (#[trigger] self.spec_entries()[k]).0 != name@,
            decreases self.entries@.len() - i,
        {
            if str_eq(self.entries[i].0, name) {
                return Some(i);
            }
            i += 1;
        }
        None
    }

    /// The schema registered under `name`, if any.
    pub fn get(&self, name: &str) -> (r: Option<&Value>)
        ensures
            match r {
                Some(v) => exists|i: int|
                    0 <= i < self.spec_entries().len() && #[trigger] self.spec_entries()[i] == (name@, *v),
                None => !has_name(self.spec_entries(), name@),
            },
    {
        match self.position(name) {
            Some(i) => {
                let r = &self.entries[i].1;
                assert(self.spec_entries()[i as int] == (name@, *r));
                Some(r)
            },
            None => None,
        }
    }

    /// Whether some schema has the title `title`.
    fn title_taken(&self, title: &str) -> (r: bool)
        ensures
            r == has_title(self.spec_entries(), title@),
    {
        let mut i: usize = 0;
        while i < self.entries.len()
            invariant
                0 <= i <= self.entries@.len(),
                forall|k: int| 0 <= k < i ==> json_title((#[trigger] self.spec_entries()[k]).1) != Some(title@),
            decreases self.entries@.len() - i,
        {
            let taken = match title_of(&self.entries[i].1) {
                Some(t) => str_eq(t, title),
                None => false,
            };
            if taken {
                assert(json_title(self.spec_entries()[i as int].1) == Some(title@));
                return true;
            }
            i += 1;
        }
        false
    }
}

/// Registers `schema` under the payload `name`. A name already registered
/// accepts only an equal schema again, which changes nothing and returns
/// `false`; a new name needs a schema with a string title that no registered
/// schema has, and returns `true`. A refused schema leaves the registry as
/// it was.
pub fn register_schema(schemas: &mut Schemas, name: &'static str, schema: Value) -> (r: Result<bool, String>)
    requires
        old(schemas).wf(),
    ensures
        final(schemas).wf(),
        r is Err ==> final(schemas).spec_entries() == old(schemas).spec_entries(),
        r == Ok::<bool, String>(false) ==> final(schemas).spec_entries() == old(schemas).spec_entries(),
        forall|i: int|
            0 <= i < old(schemas).spec_entries().len() && #[trigger] old(schemas).spec_entries()[i].0 == name@
                ==> if json_equal(old(schemas).spec_entries()[i].1, schema) {
                r == Ok::<bool, String>(false)
            } else {
                r matches Err(e) && e@ == "Conflicting payload contract across profiles: "@ + name@
            },
        old(schemas).spec_entries().contains((name@, schema)) ==> r == Ok::<bool, String>(false),
        !has_name(old(schemas).spec_entries(), name@) ==> match json_title(schema) {
            None => r matches Err(e) && e@ == "Missing payload type name"@,
            Some(t) => if has_title(old(schemas).spec_entries(), t) {
                r matches Err(e) && e@ == "Duplicate payload type name: "@ + t
            } else {
                r == Ok::<bool, String>(true) && exists|p: int|
                    {
                        &&& 0 <= p <= old(schemas).spec_entries().len()
                        &&& forall|i: int|
                            0 <= i < p ==> bytes_less(
                                key_bytes(#[trigger] old(schemas).spec_entries()[i]),
                                encode_utf8(name@),
                            )
                        &&& forall|i: int|
                            p <= i < old(schemas).spec_entries().len() ==> bytes_less(
                                encode_utf8(name@),
                                key_bytes(#[trigger] old(schemas).spec_entries()[i]),
                            )
                        &&& final(schemas).spec_entries() == old(schemas).spec_entries().insert(
                            p,
                            (name@, schema),
                        )
                    }
            },
        },
{
    let ghost old_entries = schemas.spec_entries();
    if let Some(i) = schemas.position(name) {
        let equal = same_json(&schemas.entries[i].1, &schema);
        proof {
            assert forall|k: int|
                0 <= k < old_entries.len() && #[trigger] old_entries[k].0 == name@ implies k
                == i by {
                if k != i {
                    schemas.lemma_names_differ(k, i as int);
                }
            }
        }
        if equal {
            return Ok(false);
        }
        proof {
            if old_entries.contains((name@, schema)) {
                let k = choose|k: int| 0 <= k < old_entries.len() && old_entries[k] == (name@, schema);
                assert(old_entries[k].0 == name@);
            }
        }
        let mut message = String::from_str("Conflicting payload contract across profiles: ");
        proof {
            reveal_strlit("Conflicting payload contract across profiles: ");
        }
        message.append(name);
        return Err(message);
    }
    proof {
        if old_entries.contains((name@, schema)) {
            let k = choose|k: int| 0 <= k < old_entries.len() && old_entries[k] == (name@, schema);
            assert(old_entries[k].0 == name@);
        }
    }
    let title = match title_of(&schema) {
        Some(t) => t,
        None => {
            proof {
                reveal_strlit("Missing payload type name");
            }
            return Err(String::from_str("Missing payload type name"));
        },
    };
    if schemas.title_taken(title) {
        let mut message = String::from_str("Duplicate payload type name: ");
        proof {
            reveal_strlit("Duplicate payload type name: ");
        }
        message.append(title);
        return Err(message);
    }
    let mut p: usize = 0;
    while p < schemas.entries.len() && str_less(schemas.entries[p].0, name)
        invariant
            0 <= p <= schemas.entries@.len(),
            schemas.spec_entries() == old_entries,
            forall|i: int| 0 <= i < p ==> bytes_less(key_bytes(#[trigger] old_entries[i]), encode_utf8(name@)),
        decreases schemas.entries@.len() - p,
    {
        proof {
            assert(old_entries[p as int].0 == schemas.entries@[p as int].0@);
        }
        p += 1;
    }
    let ghost nb = encode_utf8(name@);
    proof {
        assert forall|i: int| p <= i < old_entries.len() implies bytes_less(nb, key_bytes(
            #[trigger] old_entries[i],
        )) by {
            let kp = key_bytes(old_entries[p as int]);
            assert(old_entries[p as int].0 == schemas.entries@[p as int].0@);
            assert(!bytes_less(kp, nb));
            assert(old_entries[p as int].0 != name@);
            assert(kp != nb) by {
                vstd::utf8::encode_utf8_decode_utf8(old_entries[p as int].0);
                vstd::utf8::encode_utf8_decode_utf8(name@);
            }
            lemma_bytes_order(kp, nb);
            if i > p {
                lemma_bytes_less_trans(nb, kp, key_bytes(old_entries[i]));
            }
        }
    }
    schemas.entries.insert(p, (name, schema));
    proof {
        let ne = schemas.spec_entries();
        assert(ne =~= old_entries.insert(p as int, (name@, schema)));
        assert forall|i: int, j: int|
            0 <= i < j < ne.len() implies bytes_less(key_bytes(#[trigger] ne[i]), key_bytes(#[trigger] ne[j])) by {
            if j < p {
                assert(ne[i] == old_entries[i] && ne[j] == old_entries[j]);
            } else if j == p {
                assert(ne[i] == old_entries[i]);
            } else if i == p {
                assert(ne[j] == old_entries[j - 1]);
            } else if i < p {
                assert(ne[i] == old_entries[i] && ne[j] == old_entries[j - 1]);
            } else {
                assert(ne[i] == old_entries[i - 1] && ne[j] == old_entries[j - 1]);
            }
        }
    }
    Ok(true)
}

} // verus!
