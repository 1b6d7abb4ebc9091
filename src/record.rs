use vstd::prelude::*;

use crate::call_node::RawEvent;

verus! {

/// A field value of an incoming event record, as the host hands it over.
pub enum FieldValue {
    Text(String),
    /// A non-negative integer that fits in 64 bits.
    Int(u64),
    Bool(bool),
    /// Anything else (a negative or too large number, a list, nothing, ...).
    Other,
}

/// A field of an event record that is missing or of the wrong type, by name.
pub enum FieldError {
    Missing(String),
    Invalid(String),
}

impl FieldError {
    /// The name of the field at fault.
    pub fn field(&self) -> (r: &String)
        ensures
            r@ == field_name(*self),
    {
        match self {
            FieldError::Missing(f) => f,
            FieldError::Invalid(f) => f,
        }
    }
}

/// The name of the field that an error is about.
pub open spec fn field_name(e: FieldError) -> Seq<char> {
    match e {
        FieldError::Missing(f) => f@,
        FieldError::Invalid(f) => f@,
    }
}

/// The value of the first entry of `rec` named `key`.
pub open spec fn lookup(rec: Seq<(String, FieldValue)>, key: Seq<char>) -> Option<FieldValue>
    decreases rec.len(),
{
    if rec.len() == 0 {
        None
    } else if rec[0].0@ == key {
        Some(rec[0].1)
    } else {
        lookup(rec.drop_first(), key)
    }
}

/// A text field holds text only.
pub open spec fn as_text(v: FieldValue) -> Option<Seq<char>> {
    match v {
        FieldValue::Text(s) => Some(s@),
        _ => None,
    }
}

/// An integer field also takes a flag, as 0 or 1.
pub open spec fn as_u64(v: FieldValue) -> Option<u64> {
    match v {
        FieldValue::Int(n) => Some(n),
        FieldValue::Bool(b) => Some(
            if b {
                1
            } else {
                0
            },
        ),
        _ => None,
    }
}

/// A 32-bit field takes what a 64-bit one takes, where it fits.
pub open spec fn as_u32(v: FieldValue) -> Option<u32> {
    match as_u64(v) {
        Some(n) => if n <= u32::MAX {
            Some(n as u32)
        } else {
            None
        },
        None => None,
    }
}

/// A flag field holds a flag only.
pub open spec fn as_bool(v: FieldValue) -> Option<bool> {
    match v {
        FieldValue::Bool(b) => Some(b),
        _ => None,
    }
}

/// The text of the field named `key`, if present and of the right type.
pub open spec fn text_field(rec: Seq<(String, FieldValue)>, key: Seq<char>) -> Option<Seq<char>> {
    match lookup(rec, key) {
        Some(v) => as_text(v),
        None => None,
    }
}

/// The 32-bit integer of the field named `key`, if present and of the right type.
pub open spec fn u32_field(rec: Seq<(String, FieldValue)>, key: Seq<char>) -> Option<u32> {
    match lookup(rec, key) {
        Some(v) => as_u32(v),
        None => None,
    }
}

/// The 64-bit integer of the field named `key`, if present and of the right type.
pub open spec fn u64_field(rec: Seq<(String, FieldValue)>, key: Seq<char>) -> Option<u64> {
    match lookup(rec, key) {
        Some(v) => as_u64(v),
        None => None,
    }
}

/// The flag of the field named `key`, if present and of the right type.
pub open spec fn bool_field(rec: Seq<(String, FieldValue)>, key: Seq<char>) -> Option<bool> {
    match lookup(rec, key) {
        Some(v) => as_bool(v),
        None => None,
    }
}

/// The event that a record holds, field by field.
#[verifier::opaque]
pub open spec fn record_holds(rec: Seq<(String, FieldValue)>, ev: RawEvent) -> bool {
    &&& text_field(rec, "event"@) == Some(ev.event@)
    &&& text_field(rec, "func_name"@) == Some(ev.func_name@)
    &&& text_field(rec, "module"@) == Some(ev.module@)
    &&& text_field(rec, "filename"@) == Some(ev.filename@)
    &&& u32_field(rec, "lineno"@) == Some(ev.lineno)
    &&& u64_field(rec, "timestamp_ns"@) == Some(ev.timestamp_ns)
    &&& bool_field(rec, "is_external"@) == Some(ev.is_external)
    &&& text_field(rec, "library_name"@) == Some(ev.library_name@)
}

/// The error for `key` where its field is unusable.
pub open spec fn fault(rec: Seq<(String, FieldValue)>, key: Seq<char>, usable: bool) -> Option<
    (Seq<char>, bool),
> {
    if usable {
        None
    } else {
        Some((key, lookup(rec, key) is None))
    }
}

/// The first unusable field of a record, in the order the fields are read,
/// with whether it is missing (rather than of the wrong type).
#[verifier::opaque]
pub open spec fn first_fault(rec: Seq<(String, FieldValue)>) -> Option<(Seq<char>, bool)> {
    if text_field(rec, "event"@) is None {
        fault(rec, "event"@, false)
    } else if text_field(rec, "func_name"@) is None {
        fault(rec, "func_name"@, false)
    } else if text_field(rec, "module"@) is None {
        fault(rec, "module"@, false)
    } else if text_field(rec, "filename"@) is None {
        fault(rec, "filename"@, false)
    } else if u32_field(rec, "lineno"@) is None {
        fault(rec, "lineno"@, false)
    } else if u64_field(rec, "timestamp_ns"@) is None {
        fault(rec, "timestamp_ns"@, false)
    } else if bool_field(rec, "is_external"@) is None {
        fault(rec, "is_external"@, false)
    } else if text_field(rec, "library_name"@) is None {
        fault(rec, "library_name"@, false)
    } else {
        None
    }
}

/// A record that holds an event has no faulty field.
pub proof fn lemma_holds_no_fault(rec: Seq<(String, FieldValue)>, ev: RawEvent)
    requires
        record_holds(rec, ev),
    ensures
        first_fault(rec) is None,
{
    reveal(record_holds);
    reveal(first_fault);
}

/// `e` is the error that `f` describes.
pub open spec fn error_is(e: FieldError, f: (Seq<char>, bool)) -> bool {
    field_name(e) == f.0 && (e is Missing) == f.1
}

fn find_field<'a>(rec: &'a Vec<(String, FieldValue)>, key: &str) -> (r: Option<&'a FieldValue>)
    ensures
        match lookup(rec@, key@) {
            Some(v) => r == Some(&v),
            None => r is None,
        },
{
    let wanted = String::from_str(key);
    let n = rec.len();
    let mut i: usize = 0;
    assert(rec@.subrange(0, n as int) =~= rec@);
    while i < n
        invariant
            n == rec@.len(),
            i <= n,
            wanted@ == key@,
            lookup(rec@, key@) == lookup(rec@.subrange(i as int, n as int), key@),
        decreases n - i,
    {
        let ghost rest = rec@.subrange(i as int, n as int);
        assert(rest.drop_first() =~= rec@.subrange(i + 1, n as int));
        if rec[i].0 == wanted {
            return Some(&rec[i].1);
        }
        i += 1;
    }
    None
}

fn missing_or_invalid(present: bool, key: &str) -> (e: FieldError)
    ensures
        field_name(e) == key@,
        (e is Missing) == !present,
{
    if present {
        FieldError::Invalid(String::from_str(key))
    } else {
        FieldError::Missing(String::from_str(key))
    }
}

fn text_of(rec: &Vec<(String, FieldValue)>, key: &str) -> (r: Result<String, FieldError>)
    ensures
        match text_field(rec@, key@) {
            Some(s) => r is Ok && r->Ok_0@ == s,
            None => r is Err && error_is(r->Err_0, (key@, lookup(rec@, key@) is None)),
        },
{
    match find_field(rec, key) {
        Some(FieldValue::Text(s)) => Ok(s.clone()),
        found => Err(missing_or_invalid(found.is_some(), key)),
    }
}

fn u64_of(rec: &Vec<(String, FieldValue)>, key: &str) -> (r: Result<u64, FieldError>)
    ensures
        match u64_field(rec@, key@) {
            Some(n) => r == Ok::<u64, FieldError>(n),
            None => r is Err && error_is(r->Err_0, (key@, lookup(rec@, key@) is None)),
        },
{
    match find_field(rec, key) {
        Some(FieldValue::Int(n)) => Ok(*n),
        Some(FieldValue::Bool(b)) => Ok(
            if *b {
                1
            } else {
                0
            },
        ),
        found => Err(missing_or_invalid(found.is_some(), key)),
    }
}

fn u32_of(rec: &Vec<(String, FieldValue)>, key: &str) -> (r: Result<u32, FieldError>)
    ensures
        match u32_field(rec@, key@) {
            Some(n) => r == Ok::<u32, FieldError>(n),
            None => r is Err && error_is(r->Err_0, (key@, lookup(rec@, key@) is None)),
        },
{
    match u64_of(rec, key) {
        Ok(n) => if n <= 0xffff_ffff {
            Ok(n as u32)
        } else {
            Err(FieldError::Invalid(String::from_str(key)))
        },
        Err(e) => Err(e),
    }
}

fn bool_of(rec: &Vec<(String, FieldValue)>, key: &str) -> (r: Result<bool, FieldError>)
    ensures
        match bool_field(rec@, key@) {
            Some(b) => r == Ok::<bool, FieldError>(b),
            None => r is Err && error_is(r->Err_0, (key@, lookup(rec@, key@) is None)),
        },
{
    match find_field(rec, key) {
        Some(FieldValue::Bool(b)) => Ok(*b),
        found => Err(missing_or_invalid(found.is_some(), key)),
    }
}

/// Reads one event record; fails on the first field, in reading order, that
/// is missing or of the wrong type.
pub fn parse_event(rec: &Vec<(String, FieldValue)>) -> (r: Result<RawEvent, FieldError>)
    ensures
        match first_fault(rec@) {
            None => r is Ok && record_holds(rec@, r->Ok_0),
            Some(f) => r is Err && error_is(r->Err_0, f),
        },
{
    reveal(record_holds);
    reveal(first_fault);
    let event = match text_of(rec, "event") {
        Ok(v) => v,
        Err(e) => return Err(e),
    };
    let func_name = match text_of(rec, "func_name") {
        Ok(v) => v,
        Err(e) => return Err(e),
    };
    let module = match text_of(rec, "module") {
        Ok(v) => v,
        Err(e) => return Err(e),
    };
    let filename = match text_of(rec, "filename") {
        Ok(v) => v,
        Err(e) => return Err(e),
    };
    let lineno = match u32_of(rec, "lineno") {
        Ok(v) => v,
        Err(e) => return Err(e),
    };
    let timestamp_ns = match u64_of(rec, "timestamp_ns") {
        Ok(v) => v,
        Err(e) => return Err(e),
    };
    let is_external = match bool_of(rec, "is_external") {
        Ok(v) => v,
        Err(e) => return Err(e),
    };
    let library_name = match text_of(rec, "library_name") {
        Ok(v) => v,
        Err(e) => return Err(e),
    };
    Ok(
        RawEvent {
            event,
            func_name,
            module,
            filename,
            lineno,
            timestamp_ns,
            is_external,
            library_name,
        },
    )
}

/// Reads every record in order; fails with the error of the first record
/// that cannot be read.
pub fn parse_events(events: &Vec<Vec<(String, FieldValue)>>) -> (r: Result<Vec<RawEvent>, FieldError>)
    ensures
        r is Ok <==> forall|i: int| 0 <= i < events@.len() ==> #[trigger] first_fault(events@[i]@) is None,
        r is Ok ==> r->Ok_0@.len() == events@.len() && forall|i: int|
            0 <= i < events@.len() ==> #[trigger] record_holds(events@[i]@, r->Ok_0@[i]),
        forall|i: int|
            0 <= i < events@.len() && #[trigger] first_fault(events@[i]@) is Some && (forall|j: int|
                0 <= j < i ==> #[trigger] first_fault(events@[j]@) is None) ==> r is Err && error_is(
                r->Err_0,
                first_fault(events@[i]@)->0,
            ),
{
    let mut result: Vec<RawEvent> = Vec::with_capacity(events.len());
    let n = events.len();
    let mut i: usize = 0;
    while i < n
        invariant
            n == events@.len(),
            i <= n,
            result@.len() == i,
            forall|j: int| 0 <= j < i ==> #[trigger] first_fault(events@[j]@) is None,
            forall|j: int| 0 <= j < i ==> #[trigger] record_holds(events@[j]@, result@[j]),
        decreases n - i,
    {
        match parse_event(&events[i]) {
            Ok(ev) => result.push(ev),
            Err(e) => {
                assert forall|k: int|
                    0 <= k < n && #[trigger] first_fault(events@[k]@) is Some && (forall|j: int|
                        0 <= j < k ==> #[trigger] first_fault(events@[j]@) is None) implies k == i by {
                    if k > i {
                        assert(first_fault(events@[i as int]@) is None);
                    }
                }
                return Err(e);
            },
        }
        i += 1;
    }
    Ok(result)
}

} // verus!
