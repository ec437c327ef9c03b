use vstd::prelude::*;

use crate::text::{
    byte_len, chars_eq, chars_less, chars_of, decimal, utf8_len, lemma_less_asymmetric, lemma_less_total, lemma_less_transitive,
    push_decimal, push_str, str_less, string_of,
};

verus! {

/// Keys listed at most for one object.
pub const MAX_KEYS: usize = 16;

/// A parsed JSON document, as much of it as the schema reads.
pub enum JsonValue {
    Null,
    Bool(bool),
    /// A number; `is_i64` when it is exactly a 64-bit integer.
    Number { is_i64: bool },
    Str(String),
    Array(Vec<JsonValue>),
    /// Members in document order; in a `well_formed` value no key repeats.
    Object(Vec<(String, JsonValue)>),
}

pub open spec fn indent(depth: nat) -> Seq<char> {
    Seq::new(2 * depth, |k: int| ' ')
}

/// The label of a string value; lengths are counted in UTF-8 bytes.
pub open spec fn string_label(s: Seq<char>) -> Seq<char> {
    if utf8_len(s) > 50 {
        "string["@ + decimal(utf8_len(s)) + "]"@
    } else if s.len() == 0 {
        "string"@
    } else if s.len() >= 4 && s.take(4) == "http"@ {
        "url"@
    } else if s.contains('-') && utf8_len(s) == 10 {
        "date?"@
    } else {
        "string"@
    }
}

pub open spec fn is_simple(v: JsonValue) -> bool {
    !(v is Array || v is Object)
}

/// Inserts `k` into keys sorted in ascending order.
pub open spec fn insert_key(sorted: Seq<Seq<char>>, k: Seq<char>) -> Seq<Seq<char>>
    decreases sorted.len(),
{
    if sorted.len() == 0 || !str_less(sorted[0], k) {
        seq![k] + sorted
    } else {
        seq![sorted[0]] + insert_key(sorted.drop_first(), k)
    }
}

/// Keys in lexicographic order.
pub open spec fn sort_keys(ks: Seq<Seq<char>>) -> Seq<Seq<char>>
    decreases ks.len(),
{
    if ks.len() == 0 {
        Seq::empty()
    } else {
        insert_key(sort_keys(ks.drop_last()), ks.last())
    }
}

pub open spec fn keys_of(es: Seq<(String, JsonValue)>) -> Seq<Seq<char>> {
    es.map_values(|e: (String, JsonValue)| e.0@)
}

/// The position of the first member at or after `i` named `key`.
pub open spec fn key_index(es: Seq<(String, JsonValue)>, key: Seq<char>, i: int) -> int
    decreases es.len() - i,
{
    if i < 0 || i >= es.len() {
        es.len() as int
    } else if es[i].0@ == key {
        i
    } else {
        key_index(es, key, i + 1)
    }
}

/// The schema of a value without its leading indentation.
pub open spec fn body(v: JsonValue, depth: nat, max_depth: nat) -> Seq<char>
    decreases v, 0nat,
{
    if depth > max_depth {
        "..."@
    } else {
        match v {
            JsonValue::Null => "null"@,
            JsonValue::Bool(_) => "bool"@,
            JsonValue::Number { is_i64 } => if is_i64 { "int"@ } else { "float"@ },
            JsonValue::Str(s) => string_label(s@),
            JsonValue::Array(items) => {
                if items@.len() == 0 {
                    "[]"@
                } else if items@.len() == 1 {
                    "[\n"@ + indent(depth + 1) + body(items@[0], depth + 1, max_depth) + "\n"@ + indent(depth) + "]"@
                } else {
                    "["@ + body(items@[0], depth + 1, max_depth) + "] ("@ + decimal(items@.len()) + ")"@
                }
            },
            JsonValue::Object(members) => {
                if members@.len() == 0 {
                    "{}"@
                } else {
                    "{"@ + object_rows(members, sort_keys(keys_of(members@)), 0, depth, max_depth) + "\n"@
                        + indent(depth) + "}"@
                }
            },
        }
    }
}

/// The row for the `i`-th sorted key, after a newline: a simple value inline,
/// with a comma unless it is the last key, any other below the key.
pub open spec fn key_row(members: Vec<(String, JsonValue)>, keys: Seq<Seq<char>>, i: int, depth: nat, max_depth: nat) -> Seq<char>
    decreases members, 0int,
{
    let k = key_index(members@, keys[i], 0);
    if 0 <= k < members@.len() {
        let val = members@[k].1;
        if is_simple(val) {
            "\n"@ + indent(depth + 1) + keys[i] + ": "@ + body(val, depth + 1, max_depth)
                + (if i < keys.len() - 1 { ","@ } else { Seq::empty() })
        } else {
            "\n"@ + indent(depth + 1) + keys[i] + ":"@ + "\n"@ + indent(depth + 1) + body(val, depth + 1, max_depth)
        }
    } else {
        Seq::empty()
    }
}

/// The line that counts the keys an object leaves out.
pub open spec fn more_keys_line(left: nat, depth: nat) -> Seq<char> {
    "\n"@ + indent(depth + 1) + "... +"@ + decimal(left) + " more keys"@
}

/// The rows of an object from its `i`-th sorted key on; after the sixteenth, a
/// count of the keys left out ends the list.
pub open spec fn object_rows(members: Vec<(String, JsonValue)>, keys: Seq<Seq<char>>, i: int, depth: nat, max_depth: nat) -> Seq<char>
    decreases members, keys.len() - i,
{
    if i < 0 || i >= keys.len() {
        Seq::empty()
    } else if i >= MAX_KEYS - 1 {
        key_row(members, keys, i, depth, max_depth) + more_keys_line((keys.len() - i - 1) as nat, depth)
    } else {
        key_row(members, keys, i, depth, max_depth) + object_rows(members, keys, i + 1, depth, max_depth)
    }
}

/// The schema of a value at the given depth, indented two spaces a level.
pub open spec fn schema(v: JsonValue, depth: nat, max_depth: nat) -> Seq<char> {
    indent(depth) + body(v, depth, max_depth)
}


fn push_indent(out: &mut Vec<char>, depth: usize)
    ensures
        final(out)@ == old(out)@ + indent(depth as nat),
{
    let mut i: usize = 0;
    let ghost start = old(out)@;
    assert(indent(0) =~= Seq::<char>::empty());
    assert(out@ =~= start + indent(0));
    while i < depth
        invariant
            i <= depth,
            out@ == start + indent(i as nat),
        decreases depth - i,
    {
        out.push(' ');
        out.push(' ');
        i = i + 1;
        assert(indent(i as nat) =~= indent((i - 1) as nat).push(' ').push(' '));
    }
}

fn push_string_label(out: &mut Vec<char>, s: &String)
    ensures
        final(out)@ == old(out)@ + string_label(s@),
{
    let c = chars_of(s.as_str());
    let n = c.len();
    let bytes = byte_len(s.as_str());
    assert(bytes == utf8_len(s@));
    if bytes > 50 {
        push_str(out, "string[");
        push_decimal(out, bytes);
        push_str(out, "]");
        assert(out@ =~= old(out)@ + string_label(s@));
        return;
    }
    if n == 0 {
        push_str(out, "string");
        return;
    }
    let mut http: Vec<char> = Vec::new();
    http.push('h');
    http.push('t');
    http.push('t');
    http.push('p');
    proof {
        reveal_strlit("http");
        assert(http@ =~= "http"@);
    }
    if n >= 4 {
        let mut head: Vec<char> = Vec::new();
        head.push(c[0]);
        head.push(c[1]);
        head.push(c[2]);
        head.push(c[3]);
        assert(head@ =~= c@.take(4));
        if chars_eq(&head, &http) {
            push_str(out, "url");
            return;
        }
    }
    let mut dash = false;
    let mut i: usize = 0;
    while i < n
        invariant
            n == c@.len(),
            i <= n,
            dash == (exists|k: int| 0 <= k < i && c@[k] == '-'),
        decreases n - i,
    {
        if c[i] == '-' {
            dash = true;
        }
        i = i + 1;
    }
    if dash && bytes == 10 {
        push_str(out, "date?");
    } else {
        push_str(out, "string");
    }
}

/// The keys of an object in lexicographic order.
fn sorted_keys(members: &Vec<(String, JsonValue)>) -> (r: Vec<Vec<char>>)
    ensures
        r@.map_values(|k: Vec<char>| k@) == sort_keys(keys_of(members@)),
{
    let ghost ks = keys_of(members@);
    let mut sorted: Vec<Vec<char>> = Vec::new();
    let mut i: usize = 0;
    assert(ks.take(0) =~= Seq::<Seq<char>>::empty());
    assert(sorted@.map_values(|k: Vec<char>| k@) =~= Seq::<Seq<char>>::empty());
    while i < members.len()
        invariant
            i <= members@.len(),
            ks == keys_of(members@),
            sorted@.map_values(|k: Vec<char>| k@) == sort_keys(ks.take(i as int)),
        decreases members@.len() - i,
    {
        let key = chars_of(members[i].0.as_str());
        let ghost sv = sorted@.map_values(|k: Vec<char>| k@);
        let mut p: usize = 0;
        assert(sv.skip(0) =~= sv);
        assert(sv.take(0) =~= Seq::<Seq<char>>::empty());
        while p < sorted.len() && chars_less(&sorted[p], &key)
            invariant
                p <= sorted@.len(),
                sv == sorted@.map_values(|k: Vec<char>| k@),
                insert_key(sv, key@) == sv.take(p as int) + insert_key(sv.skip(p as int), key@),
            decreases sorted@.len() - p,
        {
            proof {
                let sp = sv.skip(p as int);
                assert(sp[0] == sv[p as int]);
                assert(sp.drop_first() =~= sv.skip(p + 1));
                assert(sv.take(p + 1) =~= sv.take(p as int).push(sv[p as int]));
                assert(sv.take(p as int) + (seq![sv[p as int]] + insert_key(sv.skip(p + 1), key@))
                    =~= sv.take(p + 1) + insert_key(sv.skip(p + 1), key@));
            }
            p = p + 1;
        }
        proof {
            let sp = sv.skip(p as int);
            if p < sv.len() {
                assert(sp[0] == sv[p as int]);
            } else {
                assert(sp =~= Seq::<Seq<char>>::empty());
            }
            assert(insert_key(sp, key@) == seq![key@] + sp);
        }
        sorted.insert(p, key);
        proof {
            assert(sorted@.map_values(|k: Vec<char>| k@) =~= sv.take(p as int) + (seq![key@] + sv.skip(p as int)));
            assert(ks.take(i + 1).drop_last() =~= ks.take(i as int));
            assert(ks.take(i + 1).last() == members@[i as int].0@);
        }
        i = i + 1;
    }
    assert(ks.take(members@.len() as int) =~= ks);
    sorted
}

/// The position of the first member named `key`.
fn find_key(members: &Vec<(String, JsonValue)>, key: &Vec<char>) -> (r: usize)
    ensures
        r == key_index(members@, key@, 0),
{
    let mut i: usize = 0;
    while i < members.len()
        invariant
            i <= members@.len(),
            key_index(members@, key@, 0) == key_index(members@, key@, i as int),
        decreases members@.len() - i,
    {
        let name = chars_of(members[i].0.as_str());
        if chars_eq(&name, key) {
            return i;
        }
        i = i + 1;
    }
    i
}

fn simple(v: &JsonValue) -> (r: bool)
    ensures
        r == is_simple(*v),
{
    match v {
        JsonValue::Array(_) => false,
        JsonValue::Object(_) => false,
        _ => true,
    }
}

#[verifier::rlimit(80)]
#[verifier::spinoff_prover]
fn push_body(out: &mut Vec<char>, v: &JsonValue, depth: usize, max_depth: usize)
    requires
        max_depth < usize::MAX,
    ensures
        final(out)@ == old(out)@ + body(*v, depth as nat, max_depth as nat),
    decreases v,
{
    let ghost start = old(out)@;
    if depth > max_depth {
        push_str(out, "...");
        return;
    }
    match v {
        JsonValue::Null => push_str(out, "null"),
        JsonValue::Bool(_) => push_str(out, "bool"),
        JsonValue::Number { is_i64 } => {
            if *is_i64 {
                push_str(out, "int");
            } else {
                push_str(out, "float");
            }
        },
        JsonValue::Str(s) => push_string_label(out, s),
        JsonValue::Array(items) => {
            if items.len() == 0 {
                push_str(out, "[]");
            } else if items.len() == 1 {
                push_str(out, "[\n");
                push_indent(out, depth + 1);
                push_body(out, &items[0], depth + 1, max_depth);
                push_str(out, "\n");
                push_indent(out, depth);
                push_str(out, "]");
                assert(out@ =~= start + body(*v, depth as nat, max_depth as nat));
            } else {
                push_str(out, "[");
                push_body(out, &items[0], depth + 1, max_depth);
                push_str(out, "] (");
                push_decimal(out, items.len());
                push_str(out, ")");
                assert(out@ =~= start + body(*v, depth as nat, max_depth as nat));
            }
        },
        JsonValue::Object(members) => {
            if members.len() == 0 {
                push_str(out, "{}");
                return;
            }
            push_str(out, "{");
            let keys = sorted_keys(members);
            let ghost kv = keys@.map_values(|k: Vec<char>| k@);
            let ghost rows = object_rows(*members, kv, 0, depth as nat, max_depth as nat);
            let ghost mid = out@;
            let n = keys.len();
            let mut i: usize = 0;
            while i < n
                invariant
                    n == kv.len(),
                    kv == keys@.map_values(|k: Vec<char>| k@),
                    i <= n,
                    depth <= max_depth,
                    max_depth < usize::MAX,
                    *v == JsonValue::Object(*members),
                    mid + rows == out@ + object_rows(*members, kv, i as int, depth as nat, max_depth as nat),
                decreases n - i,
            {
                let ghost o = out@;
                let k = find_key(members, &keys[i]);
                assert(kv[i as int] == keys@[i as int]@);
                if k < members.len() {
                    let val = &members[k].1;
                    proof {
                        assert(*val == members@[k as int].1);
                        assert((*v)->Object_0 == *members);
                        assert(decreases_to!(*v => (*v)->Object_0));
                        assert(decreases_to!(*members => members@[k as int]));
                        assert(decreases_to!(members@[k as int] => members@[k as int].1));
                        assert(decreases_to!(*v => *val));
                    }
                    push_str(out, "\n");
                    push_indent(out, depth + 1);
                    let name = string_of(&keys[i]);
                    if simple(val) {
                        push_str(out, name.as_str());
                        push_str(out, ": ");
                        push_body(out, val, depth + 1, max_depth);
                        if i + 1 < n {
                            push_str(out, ",");
                        }
                    } else {
                        push_str(out, name.as_str());
                        push_str(out, ":");
                        push_str(out, "\n");
                        push_indent(out, depth + 1);
                        push_body(out, val, depth + 1, max_depth);
                    }
                }
                assert(out@ =~= o + key_row(*members, kv, i as int, depth as nat, max_depth as nat));
                let ghost after_row = out@;
                if i >= MAX_KEYS - 1 {
                    push_str(out, "\n");
                    push_indent(out, depth + 1);
                    push_str(out, "... +");
                    push_decimal(out, n - i - 1);
                    push_str(out, " more keys");
                    assert(out@ =~= after_row + more_keys_line((n - i - 1) as nat, depth as nat));
                    i = n;
                } else {
                    assert(o + object_rows(*members, kv, i as int, depth as nat, max_depth as nat)
                        =~= out@ + object_rows(*members, kv, i + 1, depth as nat, max_depth as nat));
                    i = i + 1;
                }
            }
            push_str(out, "\n");
            push_indent(out, depth);
            push_str(out, "}");
            assert(out@ =~= start + body(*v, depth as nat, max_depth as nat));
        },
    }
}

/// Describes the shape of a JSON value, indented for the given depth, and
/// showing `...` below `max_depth`.
pub fn extract_schema(value: &JsonValue, depth: usize, max_depth: usize) -> (r: String)
    requires
        max_depth < usize::MAX,
    ensures
        r@ == schema(*value, depth as nat, max_depth as nat),
{
    let mut out: Vec<char> = Vec::new();
    push_indent(&mut out, depth);
    push_body(&mut out, value, depth, max_depth);
    string_of(&out)
}


/// The rows for sorted keys `i..j`.
pub open spec fn key_rows(members: Vec<(String, JsonValue)>, keys: Seq<Seq<char>>, i: int, j: int, depth: nat, max_depth: nat) -> Seq<char>
    decreases j - i,
{
    if i >= j {
        Seq::empty()
    } else {
        key_row(members, keys, i, depth, max_depth) + key_rows(members, keys, i + 1, j, depth, max_depth)
    }
}

proof fn lemma_rows_from(members: Vec<(String, JsonValue)>, keys: Seq<Seq<char>>, i: int, depth: nat, max_depth: nat)
    requires
        0 <= i <= keys.len(),
        i < MAX_KEYS,
    ensures
        ({
            let shown = if keys.len() < MAX_KEYS { keys.len() as int } else { MAX_KEYS as int };
            i <= shown ==> object_rows(members, keys, i, depth, max_depth)
                == key_rows(members, keys, i, shown, depth, max_depth)
                + if keys.len() >= MAX_KEYS { more_keys_line((keys.len() - MAX_KEYS) as nat, depth) } else { Seq::empty() }
        }),
    decreases keys.len() - i,
{
    let shown = if keys.len() < MAX_KEYS { keys.len() as int } else { MAX_KEYS as int };
    if i < shown {
        if i < MAX_KEYS - 1 {
            lemma_rows_from(members, keys, i + 1, depth, max_depth);
            let tail = if keys.len() >= MAX_KEYS { more_keys_line((keys.len() - MAX_KEYS) as nat, depth) } else { Seq::<char>::empty() };
            assert(key_row(members, keys, i, depth, max_depth) + (key_rows(members, keys, i + 1, shown, depth, max_depth) + tail)
                =~= key_row(members, keys, i, depth, max_depth) + key_rows(members, keys, i + 1, shown, depth, max_depth) + tail);
        } else {
            assert(key_rows(members, keys, i + 1, shown, depth, max_depth) =~= Seq::<char>::empty());
            assert(object_rows(members, keys, i, depth, max_depth) == key_row(members, keys, i, depth, max_depth)
                + more_keys_line((keys.len() - MAX_KEYS) as nat, depth));
            assert(key_rows(members, keys, i, shown, depth, max_depth) == key_row(members, keys, i, depth, max_depth)
                + key_rows(members, keys, i + 1, shown, depth, max_depth));
            assert(key_row(members, keys, i, depth, max_depth) + Seq::<char>::empty() =~= key_row(members, keys, i, depth, max_depth));
        }
    } else if i == shown {
        assert(key_rows(members, keys, i, shown, depth, max_depth) =~= Seq::<char>::empty());
        if keys.len() < MAX_KEYS {
            assert(Seq::<char>::empty() + Seq::<char>::empty() =~= Seq::<char>::empty());
        }
    }
}

/// An object lists the rows of at most its first sixteen keys in ascending
/// order, taken from all of its keys; from the sixteenth key on, a line that
/// counts the keys left out ends the list.
pub proof fn lemma_object_key_cap(members: Vec<(String, JsonValue)>, depth: nat, max_depth: nat)
    requires
        members@.len() > 0,
        depth <= max_depth,
    ensures
        ({
            let keys = sort_keys(keys_of(members@));
            let shown = if keys.len() < MAX_KEYS { keys.len() as int } else { MAX_KEYS as int };
            &&& keys_sorted(keys)
            &&& keys.to_multiset() == keys_of(members@).to_multiset()
            &&& body(JsonValue::Object(members), depth, max_depth) == "{"@
                + key_rows(members, keys, 0, shown, depth, max_depth)
                + (if keys.len() >= MAX_KEYS { more_keys_line((keys.len() - MAX_KEYS) as nat, depth) } else { Seq::empty() })
                + "\n"@ + indent(depth) + "}"@
        }),
{
    let keys = sort_keys(keys_of(members@));
    lemma_sort_keys(keys_of(members@));
    lemma_rows_from(members, keys, 0, depth, max_depth);
    let shown = if keys.len() < MAX_KEYS { keys.len() as int } else { MAX_KEYS as int };
    let tail = if keys.len() >= MAX_KEYS { more_keys_line((keys.len() - MAX_KEYS) as nat, depth) } else { Seq::<char>::empty() };
    assert("{"@ + (key_rows(members, keys, 0, shown, depth, max_depth) + tail) =~= "{"@
        + key_rows(members, keys, 0, shown, depth, max_depth) + tail);
}

/// A non-empty array is described by its first element and its length alone:
/// the other elements are never looked at.
pub proof fn lemma_array_samples_first(a: Vec<JsonValue>, b: Vec<JsonValue>, depth: nat, max_depth: nat)
    requires
        a@.len() >= 1,
        a@.len() == b@.len(),
        a@[0] == b@[0],
    ensures
        body(JsonValue::Array(a), depth, max_depth) == body(JsonValue::Array(b), depth, max_depth),
        schema(JsonValue::Array(a), depth, max_depth) == schema(JsonValue::Array(b), depth, max_depth),
        depth <= max_depth && a@.len() > 1 ==> body(JsonValue::Array(a), depth, max_depth)
            == "["@ + body(a@[0], depth + 1, max_depth) + "] ("@ + decimal(a@.len()) + ")"@,
{
}


/// Keys in ascending order: no key comes before one earlier in the list.
pub open spec fn keys_sorted(ks: Seq<Seq<char>>) -> bool {
    forall|i: int, j: int| 0 <= i < j < ks.len() ==> !str_less(#[trigger] ks[j], #[trigger] ks[i])
}

proof fn lemma_insert_key(s: Seq<Seq<char>>, k: Seq<char>)
    requires
        keys_sorted(s),
    ensures
        keys_sorted(insert_key(s, k)),
        insert_key(s, k).to_multiset() == s.to_multiset().insert(k),
        forall|x: Seq<char>| insert_key(s, k).contains(x) ==> x == k || s.contains(x),
    decreases s.len(),
{
    broadcast use vstd::seq_lib::to_multiset_insert;
    let r = insert_key(s, k);
    if s.len() == 0 || !str_less(s[0], k) {
        assert(r =~= s.insert(0, k));
        assert forall|i: int, j: int| 0 <= i < j < r.len() implies !str_less(#[trigger] r[j], #[trigger] r[i]) by {
            if i == 0 {
                let y = s[j - 1];
                if j - 1 > 0 {
                    assert(!str_less(s[j - 1], s[0]));
                }
                lemma_less_total(s[0], k);
                lemma_less_transitive(y, k, s[0]);
            }
        }
        assert forall|x: Seq<char>| r.contains(x) implies x == k || s.contains(x) by {
            let m = choose|m: int| 0 <= m < r.len() && r[m] == x;
            if m > 0 {
                assert(s[m - 1] == x);
            }
        }
    } else {
        let rest = s.drop_first();
        assert(keys_sorted(rest)) by {
            assert forall|i: int, j: int| 0 <= i < j < rest.len() implies !str_less(#[trigger] rest[j], #[trigger] rest[i]) by {
                assert(rest[j] == s[j + 1] && rest[i] == s[i + 1]);
            }
        }
        lemma_insert_key(rest, k);
        let t = insert_key(rest, k);
        assert(r =~= t.insert(0, s[0]));
        assert(s =~= rest.insert(0, s[0]));
        lemma_less_asymmetric(s[0], k);
        assert forall|i: int, j: int| 0 <= i < j < r.len() implies !str_less(#[trigger] r[j], #[trigger] r[i]) by {
            if i == 0 {
                assert(t.contains(t[j - 1]));
                if t[j - 1] != k {
                    assert(rest.contains(t[j - 1]));
                    let m = choose|m: int| 0 <= m < rest.len() && rest[m] == t[j - 1];
                    assert(s[m + 1] == rest[m]);
                    assert(!str_less(s[m + 1], s[0]));
                }
            } else {
                assert(r[i] == t[i - 1] && r[j] == t[j - 1]);
            }
        }
        assert forall|x: Seq<char>| r.contains(x) implies x == k || s.contains(x) by {
            let m = choose|m: int| 0 <= m < r.len() && r[m] == x;
            if m == 0 {
                assert(s[0] == x);
            } else {
                assert(t[m - 1] == x);
                assert(t.contains(x));
                if x != k {
                    assert(rest.contains(x));
                    let q = choose|q: int| 0 <= q < rest.len() && rest[q] == x;
                    assert(s[q + 1] == x);
                }
            }
        }
    }
}

/// Sorting the keys of an object puts them in ascending order and keeps each
/// of them, as often as it occurs.
pub proof fn lemma_sort_keys(ks: Seq<Seq<char>>)
    ensures
        keys_sorted(sort_keys(ks)),
        sort_keys(ks).to_multiset() == ks.to_multiset(),
    decreases ks.len(),
{
    broadcast use vstd::seq_lib::to_multiset_build;
    if ks.len() == 0 {
        assert(sort_keys(ks) =~= ks);
    } else {
        lemma_sort_keys(ks.drop_last());
        lemma_insert_key(sort_keys(ks.drop_last()), ks.last());
        assert(ks =~= ks.drop_last().push(ks.last()));
    }
}

/// Every object in the value, at any depth, names each member once.
pub open spec fn well_formed(v: JsonValue) -> bool
    decreases v,
{
    match v {
        JsonValue::Array(items) => forall|k: int| 0 <= k < items@.len() ==> well_formed(#[trigger] items@[k]),
        JsonValue::Object(members) => {
            &&& forall|a: int, b: int|
                0 <= a < b < members@.len() ==> (#[trigger] members@[a]).0@ != (#[trigger] members@[b]).0@
            &&& forall|k: int| 0 <= k < members@.len() ==> well_formed(#[trigger] members@[k].1)
        },
        _ => true,
    }
}

} // verus!
