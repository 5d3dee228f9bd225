//! The signals framework: results, errors, the data bound of cell values and entity lists.
use crate::entity_set::{entity_debug, entity_debug_text, is_entity_bits};
use vstd::prelude::*;
use vstd::string::StringExecFns;

verus! {

/// Read error.
#[derive(Clone, Copy, Debug, PartialEq, Eq, Structural)]
pub enum LazySignalsError {
    /// An attempt was made to reference a LazySignals entity that does not exist.
    NoSignalError,
    /// When there is no next value, and we don't want to clobber the existing one (not really err).
    NoNextValue,
    /// An attempt was made to read a signal and something weird went wrong (the entity's bits).
    ReadError(u64),
}

impl LazySignalsError {
    /// The message of the error, as the error's `Display` renders it.
    pub fn message(&self) -> (r: String)
        requires
            *self matches LazySignalsError::ReadError(bits) ==> is_entity_bits(bits),
        ensures
            r@ == error_message(*self),
    {
        match self {
            LazySignalsError::NoSignalError => "Signal does not exist".to_string(),
            LazySignalsError::NoNextValue => "No next value".to_string(),
            LazySignalsError::ReadError(bits) => {
                let entity = entity_debug(*bits);
                "Error reading signal ".to_string().concat(entity.as_str())
            },
        }
    }
}

/// The text that describes an error.
pub open spec fn error_message(e: LazySignalsError) -> Seq<char> {
    match e {
        LazySignalsError::NoSignalError => "Signal does not exist"@,
        LazySignalsError::NoNextValue => "No next value"@,
        LazySignalsError::ReadError(bits) => "Error reading signal "@ + entity_debug_text(bits),
    }
}

/// Result type for handling error conditions in developer code.
///
/// Read as an `Option<Result<R, LazySignalsError>>`: an error, when present, wins over the data;
/// otherwise the result is a value when `data` is present and nothing at all when it is not.
pub struct LazySignalsResult<R> {
    pub data: Option<R>,
    pub error: Option<LazySignalsError>,
}

impl<R: View> View for LazySignalsResult<R> {
    type V = LazySignalsResult<R::V>;

    open spec fn view(&self) -> LazySignalsResult<R::V> {
        LazySignalsResult {
            data: match self.data {
                Some(d) => Some(d@),
                None => None,
            },
            error: self.error,
        }
    }
}

impl<V> LazySignalsResult<V> {
    /// An actual value: data present and no error.
    pub open spec fn is_value(self) -> bool {
        self.error.is_none() && self.data.is_some()
    }

    /// A real error (anything but the placeholder).
    pub open spec fn is_fault(self) -> bool {
        self.error.is_some() && self.error != Some(LazySignalsError::NoNextValue)
    }

    /// The "no next value" placeholder (whatever data it carries).
    pub open spec fn is_placeholder(self) -> bool {
        self.error == Some(LazySignalsError::NoNextValue)
    }

    /// The argument a closure receives for this result: the value, or `None` for errors and
    /// for nothing.
    pub open spec fn arg(self) -> Option<V> {
        if self.is_value() {
            self.data
        } else {
            None
        }
    }
}

/// The result that holds `data`.
pub open spec fn value_result<V>(data: V) -> LazySignalsResult<V> {
    LazySignalsResult { data: Some(data), error: None }
}

/// The placeholder stored as the next value of a cell that has nothing pending.
pub open spec fn placeholder<V>() -> LazySignalsResult<V> {
    LazySignalsResult { data: None, error: Some(LazySignalsError::NoNextValue) }
}

/// The view of an optional value.
pub open spec fn option_view<T: View>(o: Option<T>) -> Option<T::V> {
    match o {
        Some(t) => Some(t@),
        None => None,
    }
}

/// An item of data for use with cells: it can be compared and duplicated, both by its view.
pub trait LazySignalsData: View + Sized {
    fn same_value(&self, other: &Self) -> (r: bool)
        ensures
            r == (self@ == other@),
    ;

    fn duplicate(&self) -> (r: Self)
        ensures
            r@ == self@,
    ;
}

impl LazySignalsData for () {
    fn same_value(&self, other: &Self) -> (r: bool) {
        true
    }

    fn duplicate(&self) -> (r: Self) {
        ()
    }
}

impl LazySignalsData for bool {
    fn same_value(&self, other: &Self) -> (r: bool) {
        *self == *other
    }

    fn duplicate(&self) -> (r: Self) {
        *self
    }
}

impl LazySignalsData for u8 {
    fn same_value(&self, other: &Self) -> (r: bool) {
        *self == *other
    }

    fn duplicate(&self) -> (r: Self) {
        *self
    }
}

impl LazySignalsData for u16 {
    fn same_value(&self, other: &Self) -> (r: bool) {
        *self == *other
    }

    fn duplicate(&self) -> (r: Self) {
        *self
    }
}

impl LazySignalsData for u32 {
    fn same_value(&self, other: &Self) -> (r: bool) {
        *self == *other
    }

    fn duplicate(&self) -> (r: Self) {
        *self
    }
}

impl LazySignalsData for u64 {
    fn same_value(&self, other: &Self) -> (r: bool) {
        *self == *other
    }

    fn duplicate(&self) -> (r: Self) {
        *self
    }
}

impl LazySignalsData for usize {
    fn same_value(&self, other: &Self) -> (r: bool) {
        *self == *other
    }

    fn duplicate(&self) -> (r: Self) {
        *self
    }
}

impl LazySignalsData for i32 {
    fn same_value(&self, other: &Self) -> (r: bool) {
        *self == *other
    }

    fn duplicate(&self) -> (r: Self) {
        *self
    }
}

impl LazySignalsData for i64 {
    fn same_value(&self, other: &Self) -> (r: bool) {
        *self == *other
    }

    fn duplicate(&self) -> (r: Self) {
        *self
    }
}

impl LazySignalsData for char {
    fn same_value(&self, other: &Self) -> (r: bool) {
        *self == *other
    }

    fn duplicate(&self) -> (r: Self) {
        *self
    }
}

impl LazySignalsData for String {
    fn same_value(&self, other: &Self) -> (r: bool) {
        *self == *other
    }

    fn duplicate(&self) -> (r: Self) {
        self.clone()
    }
}

/// Wraps `<str as PartialEq>::eq`, which compares two string slices by their contents.
#[verifier::external_body]
fn str_eq(a: &str, b: &str) -> (r: bool)
    ensures
        r == (a@ == b@),
{
    a == b
}

impl LazySignalsData for &'static str {
    fn same_value(&self, other: &Self) -> (r: bool) {
        str_eq(*self, *other)
    }

    fn duplicate(&self) -> (r: Self) {
        *self
    }
}

/// Two optional data values are equal by their views.
pub fn same_option<T: LazySignalsData>(a: &Option<T>, b: &Option<T>) -> (r: bool)
    ensures
        r == (option_view(*a) == option_view(*b)),
{
    match (a, b) {
        (Some(x), Some(y)) => x.same_value(y),
        (None, None) => true,
        _ => false,
    }
}

/// Duplicate an optional data value.
pub fn duplicate_option<T: LazySignalsData>(a: &Option<T>) -> (r: Option<T>)
    ensures
        option_view(r) == option_view(*a),
{
    match a {
        Some(x) => Some(x.duplicate()),
        None => None,
    }
}

impl<T: LazySignalsData> LazySignalsResult<T> {
    /// Compare two results by their views (data and error alike).
    pub fn same_result(&self, other: &Self) -> (r: bool)
        ensures
            r == (self@ == other@),
    {
        let d = same_option(&self.data, &other.data);
        let e = match (self.error, other.error) {
            (Some(x), Some(y)) => x == y,
            (None, None) => true,
            _ => false,
        };
        proof {
            if d && e {
                assert(self@.data == other@.data);
            }
        }
        d && e
    }

    /// Duplicate a result.
    pub fn duplicate(&self) -> (r: Self)
        ensures
            r@ == self@,
    {
        LazySignalsResult { data: duplicate_option(&self.data), error: self.error }
    }

    /// The argument a closure receives for this result (see `arg`).
    pub fn to_arg(&self) -> (r: Option<T>)
        ensures
            option_view(r) == self@.arg(),
    {
        match self.error {
            Some(_) => None,
            None => duplicate_option(&self.data),
        }
    }
}

/// A list of entity ids (sources, triggers, subscribers).
#[derive(Debug)]
pub struct LazySignalsVec(pub Vec<u64>);

impl LazySignalsVec {
    pub fn new() -> (r: Self)
        ensures
            r.0@ == Seq::<u64>::empty(),
    {
        LazySignalsVec(Vec::new())
    }

    /// Move every id of `other` to the end of this list.
    pub fn append(&mut self, other: &mut LazySignalsVec)
        ensures
            final(self).0@ == old(self).0@ + old(other).0@,
            final(other).0@ == Seq::<u64>::empty(),
    {
        self.0.append(&mut other.0);
    }

    /// Copy the list.
    pub fn duplicate(&self) -> (r: Self)
        ensures
            r.0@ == self.0@,
    {
        LazySignalsVec(self.0.clone())
    }

    /// The ids as a plain vector.
    pub fn into_vec(self) -> (r: Vec<u64>)
        ensures
            r@ == self.0@,
    {
        self.0
    }
}

} // verus!
