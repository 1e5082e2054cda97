use vstd::prelude::*;
use vstd::string::StringSliceAdditionalSpecFns;
use vstd::utf8::*;

verus! {

broadcast use {vstd::utf8::group_utf8_lib, vstd::string::group_string_axioms};

/// A string that is either borrowed or owned and shared.
#[derive(Debug, Clone)]
pub enum RefArcStr<'a> {
    Arc(String),
    Str(&'a str),
}

impl<'a> View for RefArcStr<'a> {
    type V = Seq<char>;

    open spec fn view(&self) -> Seq<char> {
        match self {
            RefArcStr::Arc(s) => s@,
            RefArcStr::Str(s) => s@,
        }
    }
}

impl<'a> RefArcStr<'a> {
    /// The same string with no borrow: a non-empty borrowed string becomes owned.
    pub fn into_static(self) -> (r: RefArcStr<'static>)
        ensures
            r@ == self@,
            self is Arc ==> r is Arc,
            self is Str && self@.len() == 0 ==> r is Str,
            self is Str && self@.len() != 0 ==> r is Arc,
    {
        match self {
            RefArcStr::Arc(a) => RefArcStr::Arc(a),
            RefArcStr::Str(s) => {
                if s.is_empty() {
                    proof {
                        reveal_strlit("");
                    }
                    RefArcStr::Str("")
                } else {
                    RefArcStr::Arc(s.to_owned())
                }
            },
        }
    }

    /// The string as a `str`.
    pub fn as_str(&self) -> (r: &str)
        ensures
            r@ == self@,
    {
        match self {
            RefArcStr::Arc(a) => a.as_str(),
            RefArcStr::Str(s) => s,
        }
    }

    /// An owned copy of the string.
    pub fn to_owned_string(&self) -> (r: String)
        ensures
            r@ == self@,
    {
        match self {
            RefArcStr::Arc(a) => a.clone(),
            RefArcStr::Str(s) => str::to_owned(*s),
        }
    }

    /// The same string, shared again.
    pub fn duplicate(&self) -> (r: RefArcStr<'a>)
        ensures
            r@ == self@,
            self is Arc <==> r is Arc,
    {
        match self {
            RefArcStr::Arc(a) => RefArcStr::Arc(a.clone()),
            RefArcStr::Str(s) => RefArcStr::Str(s),
        }
    }
}

/// A string read from the stream: empty, shared from the string map, or owned.
#[derive(Debug, Clone)]
pub enum SdString {
    Empty,
    Arc(String),
    Owned(String),
}

impl View for SdString {
    type V = Seq<char>;

    open spec fn view(&self) -> Seq<char> {
        match self {
            SdString::Empty => Seq::empty(),
            SdString::Arc(s) => s@,
            SdString::Owned(s) => s@,
        }
    }
}

impl SdString {
    /// The string as a `RefArcStr`: the empty and the owned string are borrowed,
    /// the shared one is shared again.
    pub fn as_ref_arc(&self) -> (r: RefArcStr<'_>)
        ensures
            r@ == self@,
            self is Arc <==> r is Arc,
    {
        match self {
            SdString::Empty => {
                proof {
                    reveal_strlit("");
                }
                RefArcStr::Str("")
            },
            SdString::Arc(a) => RefArcStr::Arc(a.clone()),
            SdString::Owned(s) => RefArcStr::Str(s.as_str()),
        }
    }

    /// The string as a `str`.
    pub fn as_str(&self) -> (r: &str)
        ensures
            r@ == self@,
    {
        match self {
            SdString::Empty => {
                proof {
                    reveal_strlit("");
                }
                ""
            },
            SdString::Arc(s) => s.as_str(),
            SdString::Owned(s) => s.as_str(),
        }
    }

    /// The string as an owned `String`.
    pub fn into_string(self) -> (r: String)
        ensures
            r@ == self@,
    {
        match self {
            SdString::Empty => String::new(),
            SdString::Arc(s) => s,
            SdString::Owned(s) => s,
        }
    }
}

/// The UTF-8 bytes of a string determine it.
pub proof fn lemma_utf8_bytes_determine(a: Seq<char>, b: Seq<char>)
    ensures
        encode_utf8(a) == encode_utf8(b) ==> a == b,
{
    encode_utf8_decode_utf8(a);
    encode_utf8_decode_utf8(b);
}

/// Whether two strings have the same contents.
pub fn str_eq(a: &str, b: &str) -> (r: bool)
    ensures
        r == (a@ == b@),
{
    let x = a.as_bytes();
    let y = b.as_bytes();
    proof {
        lemma_utf8_bytes_determine(a@, b@);
    }
    if x.len() != y.len() {
        return false;
    }
    let mut i: usize = 0;
    while i < x.len()
        invariant
            x.len() == y.len(),
            x@ == a.spec_bytes(),
            y@ == b.spec_bytes(),
            forall|j: int| 0 <= j < i ==> x@[j] == y@[j],
        decreases x.len() - i,
    {
        if x[i] != y[i] {
            return false;
        }
        i = i + 1;
    }
    assert(x@ =~= y@);
    true
}

} // verus!
