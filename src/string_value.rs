use vstd::prelude::*;

verus! {

/// An owned copy of a slice.
pub fn copy_slice<T: Copy>(s: &[T]) -> (r: Vec<T>)
    ensures
        r@ == s@,
{
    let mut r: Vec<T> = Vec::new();
    let mut i: usize = 0;
    while i < s.len()
        invariant
            i <= s@.len(),
            r@ == s@.subrange(0, i as int),
        decreases s@.len() - i,
    {
        r.push(s[i]);
        i = i + 1;
        assert(r@ =~= s@.subrange(0, i as int));
    }
    assert(r@ =~= s@);
    r
}

/// A mutable byte-string cell.
#[derive(Clone)]
pub struct StringValue {
    bytes: Vec<u8>,
}

impl View for StringValue {
    type V = Seq<u8>;

    closed spec fn view(&self) -> Seq<u8> {
        self.bytes@
    }
}

impl StringValue {
    pub fn new(value: &[u8]) -> (r: StringValue)
        ensures
            r@ == value@,
    {
        StringValue { bytes: copy_slice(value) }
    }

    /// Assigns a new value to the string.
    pub fn set(&mut self, value: &[u8])
        ensures
            final(self)@ == value@,
    {
        self.bytes = copy_slice(value);
    }

    /// Returns the current contents.
    pub fn get(&self) -> (r: &[u8])
        ensures
            r@ == self@,
    {
        self.bytes.as_slice()
    }

    pub fn duplicate(&self) -> (r: StringValue)
        ensures
            r@ == self@,
    {
        StringValue { bytes: self.bytes.clone() }
    }
}

} // verus!
