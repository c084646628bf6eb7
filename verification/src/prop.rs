use vstd::prelude::*;

verus! {

/// A typed property value of an instance. Values the serialization formats
/// model beyond these shapes are carried as opaque bytes.
pub enum PropValue {
    Bool(bool),
    Int(i64),
    Str(String),
    Blob(Vec<u8>),
}

/// The mathematical value of a `PropValue`.
pub enum PropVal {
    Bool(bool),
    Int(int),
    Str(Seq<char>),
    Blob(Seq<u8>),
}

impl View for PropValue {
    type V = PropVal;

    open spec fn view(&self) -> PropVal {
        match self {
            PropValue::Bool(b) => PropVal::Bool(*b),
            PropValue::Int(i) => PropVal::Int(*i as int),
            PropValue::Str(s) => PropVal::Str(s@),
            PropValue::Blob(b) => PropVal::Blob(b@),
        }
    }
}

/// One named property.
pub struct Property {
    pub key: String,
    pub value: PropValue,
}

/// The mathematical content of a property list: keys and values, in order.
pub open spec fn props_view(props: Seq<Property>) -> Seq<(Seq<char>, PropVal)> {
    props.map_values(|p: Property| (p.key@, p.value@))
}

/// First-match lookup of a key in a property list.
pub open spec fn lookup_v(props: Seq<(Seq<char>, PropVal)>, key: Seq<char>) -> Option<PropVal>
    decreases props.len(),
{
    if props.len() <= 0 {
        None
    } else if props[0].0 == key {
        Some(props[0].1)
    } else {
        lookup_v(props.skip(1), key)
    }
}

/// Lookup splits at any point: the first match in the prefix wins, otherwise
/// the suffix decides.
pub proof fn lemma_lookup_split(s: Seq<(Seq<char>, PropVal)>, key: Seq<char>, i: int)
    requires
        0 <= i <= s.len(),
    ensures
        lookup_v(s, key) == (if lookup_v(s.take(i), key) is Some {
            lookup_v(s.take(i), key)
        } else {
            lookup_v(s.skip(i), key)
        }),
    decreases i,
{
    if i == 0 {
        assert(s.take(0) =~= Seq::<(Seq<char>, PropVal)>::empty());
        assert(s.skip(0) =~= s);
    } else {
        assert(s.take(i)[0] == s[0]);
        if s[0].0 == key {
        } else {
            lemma_lookup_split(s.skip(1), key, i - 1);
            assert(s.skip(1).take(i - 1) =~= s.take(i).skip(1));
            assert(s.skip(1).skip(i - 1) =~= s.skip(i));
        }
    }
}

/// Appending an entry changes the lookup only for a key that had no match.
pub proof fn lemma_lookup_push(s: Seq<(Seq<char>, PropVal)>, p: (Seq<char>, PropVal), key: Seq<char>)
    ensures
        lookup_v(s.push(p), key) == (if lookup_v(s, key) is Some {
            lookup_v(s, key)
        } else if p.0 == key {
            Some(p.1)
        } else {
            None::<PropVal>
        }),
{
    lemma_lookup_split(s.push(p), key, s.len() as int);
    assert(s.push(p).take(s.len() as int) =~= s);
    assert(s.push(p).skip(s.len() as int) =~= seq![p]);
    assert(seq![p].skip(1) =~= Seq::<(Seq<char>, PropVal)>::empty());
    assert(lookup_v(seq![p].skip(1), key) is None);
    assert(lookup_v(seq![p], key) == (if p.0 == key { Some(p.1) } else { None::<PropVal> }));
}

/// Decides whether two property values are the same value.
pub fn prop_value_eq(a: &PropValue, b: &PropValue) -> (r: bool)
    ensures
        r == (a@ == b@),
{
    match (a, b) {
        (PropValue::Bool(x), PropValue::Bool(y)) => *x == *y,
        (PropValue::Int(x), PropValue::Int(y)) => *x == *y,
        (PropValue::Str(x), PropValue::Str(y)) => *x == *y,
        (PropValue::Blob(x), PropValue::Blob(y)) => bytes_eq(x, y),
        _ => false,
    }
}

/// Compares two byte strings element by element.
pub fn bytes_eq(a: &Vec<u8>, b: &Vec<u8>) -> (r: bool)
    ensures
        r == (a@ == b@),
{
    if a.len() != b.len() {
        return false;
    }
    let n = a.len();
    let mut i: usize = 0;
    while i < n
        invariant
            n == a@.len() == b@.len(),
            0 <= i <= n,
            forall|j: int| 0 <= j < i ==> a@[j] == b@[j],
        decreases n - i,
    {
        if a[i] != b[i] {
            return false;
        }
        i = i + 1;
    }
    proof {
        assert(a@ =~= b@);
    }
    true
}

/// Duplicates a property value.
pub fn dup_prop_value(v: &PropValue) -> (r: PropValue)
    ensures
        r@ == v@,
{
    match v {
        PropValue::Bool(b) => PropValue::Bool(*b),
        PropValue::Int(i) => PropValue::Int(*i),
        PropValue::Str(s) => PropValue::Str(s.clone()),
        PropValue::Blob(b) => PropValue::Blob(vstd::slice::slice_to_vec(b.as_slice())),
    }
}

/// Duplicates a property list, key for key and value for value.
pub fn dup_props(props: &Vec<Property>) -> (r: Vec<Property>)
    ensures
        props_view(r@) == props_view(props@),
{
    let mut out: Vec<Property> = Vec::new();
    let n = props.len();
    let mut i: usize = 0;
    while i < n
        invariant
            n == props@.len(),
            0 <= i <= n,
            out@.len() == i,
            forall|j: int| 0 <= j < i ==> #[trigger] props_view(out@)[j] == props_view(props@)[j],
        decreases n - i,
    {
        let ghost prev = props_view(out@);
        let p = &props[i];
        out.push(Property { key: p.key.clone(), value: dup_prop_value(&p.value) });
        proof {
            assert(props_view(out@) =~= prev.push(props_view(props@)[i as int]));
        }
        i = i + 1;
    }
    proof {
        assert(props_view(out@) =~= props_view(props@));
    }
    out
}

/// Looks a key up in a property list.
pub fn get_prop<'a>(props: &'a Vec<Property>, key: &String) -> (r: Option<&'a PropValue>)
    ensures
        match r {
            Some(v) => lookup_v(props_view(props@), key@) == Some(v@),
            None => lookup_v(props_view(props@), key@) is None,
        },
{
    let n = props.len();
    let mut i: usize = 0;
    while i < n
        invariant
            n == props@.len(),
            0 <= i <= n,
            lookup_v(props_view(props@).take(i as int), key@) is None,
        decreases n - i,
    {
        if props[i].key == *key {
            proof {
                lemma_lookup_split(props_view(props@), key@, i + 1);
                lemma_lookup_push(
                    props_view(props@).take(i as int),
                    props_view(props@)[i as int],
                    key@,
                );
                assert(props_view(props@).take(i + 1) =~= props_view(props@).take(i as int).push(
                    props_view(props@)[i as int],
                ));
            }
            return Some(&props[i].value);
        }
        proof {
            lemma_lookup_push(
                props_view(props@).take(i as int),
                props_view(props@)[i as int],
                key@,
            );
            assert(props_view(props@).take(i + 1) =~= props_view(props@).take(i as int).push(
                props_view(props@)[i as int],
            ));
        }
        i = i + 1;
    }
    proof {
        lemma_lookup_split(props_view(props@), key@, n as int);
        assert(props_view(props@).take(n as int) =~= props_view(props@));
    }
    None
}

/// Inserts or overwrites one property; every other key keeps its value.
pub fn upsert_prop(props: &mut Vec<Property>, key: String, value: PropValue)
    ensures
        lookup_v(props_view(final(props)@), key@) == Some(value@),
        forall|k: Seq<char>| k != key@ ==> #[trigger] lookup_v(props_view(final(props)@), k)
            == lookup_v(props_view(old(props)@), k),
{
    remove_prop(props, &key);
    let ghost filtered = props_view(props@);
    props.push(Property { key, value });
    proof {
        assert(props_view(props@) =~= filtered.push((key@, value@)));
        assert forall|k: Seq<char>| true implies #[trigger] lookup_v(props_view(props@), k)
            == (if lookup_v(filtered, k) is Some {
                lookup_v(filtered, k)
            } else if key@ == k {
                Some(value@)
            } else {
                None::<PropVal>
            }) by {
            lemma_lookup_push(filtered, (key@, value@), k);
        }
    }
}

/// Removes one property; every other key keeps its value.
pub fn remove_prop(props: &mut Vec<Property>, key: &String)
    ensures
        lookup_v(props_view(final(props)@), key@) is None,
        forall|k: Seq<char>| k != key@ ==> #[trigger] lookup_v(props_view(final(props)@), k)
            == lookup_v(props_view(old(props)@), k),
{
    let n = props.len();
    let mut out: Vec<Property> = Vec::new();
    let mut i: usize = 0;
    while i < n
        invariant
            n == old(props)@.len(),
            props@ == old(props)@,
            0 <= i <= n,
            lookup_v(props_view(out@), key@) is None,
            forall|k: Seq<char>| k != key@ ==> #[trigger] lookup_v(props_view(out@), k)
                == lookup_v(props_view(old(props)@).take(i as int), k),
        decreases n - i,
    {
        let ghost out0 = props_view(out@);
        let p = &props[i];
        let keep = !(p.key == *key);
        if keep {
            out.push(Property { key: p.key.clone(), value: dup_prop_value(&p.value) });
        }
        proof {
            let entry = props_view(props@)[i as int];
            assert forall|k: Seq<char>| true implies #[trigger] lookup_v(
                props_view(old(props)@).take(i + 1),
                k,
            ) == (if lookup_v(props_view(old(props)@).take(i as int), k) is Some {
                lookup_v(props_view(old(props)@).take(i as int), k)
            } else if entry.0 == k {
                Some(entry.1)
            } else {
                None::<PropVal>
            }) by {
                lemma_lookup_push(props_view(old(props)@).take(i as int), entry, k);
                assert(props_view(old(props)@).take(i + 1) =~= props_view(old(props)@).take(
                    i as int,
                ).push(entry));
            }
            if keep {
                assert(props_view(out@) =~= out0.push(entry));
                assert forall|k: Seq<char>| true implies #[trigger] lookup_v(props_view(out@), k)
                    == (if lookup_v(out0, k) is Some {
                    lookup_v(out0, k)
                } else if entry.0 == k {
                    Some(entry.1)
                } else {
                    None::<PropVal>
                }) by {
                    lemma_lookup_push(out0, entry, k);
                }
            }
        }
        i = i + 1;
    }
    proof {
        assert(props_view(old(props)@).take(n as int) =~= props_view(old(props)@));
    }
    *props = out;
}

/// Keys occur at most once in the list.
pub open spec fn keys_unique(ps: Seq<(Seq<char>, PropVal)>) -> bool {
    forall|i: int, j: int| 0 <= i < j < ps.len() ==> (#[trigger] ps[i]).0 != (#[trigger] ps[j]).0
}

/// A key that no entry carries has no match.
pub proof fn lemma_lookup_absent(s: Seq<(Seq<char>, PropVal)>, key: Seq<char>)
    requires
        forall|i: int| 0 <= i < s.len() ==> (#[trigger] s[i]).0 != key,
    ensures
        lookup_v(s, key) is None,
    decreases s.len(),
{
    if s.len() > 0 {
        assert(s[0].0 != key);
        assert forall|i: int| 0 <= i < s.skip(1).len() implies (#[trigger] s.skip(1)[i]).0
            != key by {
            assert(s.skip(1)[i] == s[i + 1]);
        }
        lemma_lookup_absent(s.skip(1), key);
    }
}

/// With unique keys, the lookup of an entry's key gives that entry's value.
pub proof fn lemma_lookup_unique(s: Seq<(Seq<char>, PropVal)>, k: int)
    requires
        keys_unique(s),
        0 <= k < s.len(),
    ensures
        lookup_v(s, s[k].0) == Some(s[k].1),
{
    let key = s[k].0;
    assert forall|i: int| 0 <= i < s.take(k).len() implies (#[trigger] s.take(k)[i]).0 != key by {
        assert(s.take(k)[i] == s[i]);
    }
    lemma_lookup_absent(s.take(k), key);
    lemma_lookup_split(s, key, k);
    assert(s.skip(k)[0] == s[k]);
}


} // verus!
