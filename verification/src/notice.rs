//! What a run has to say beside its result.
use crate::text;
use vstd::prelude::*;

verus! {

/// A remark on a run, for people and for tools: whether it wants attention, a
/// code, a message, and the objects that it is about.
#[derive(Debug)]
pub struct Notice {
    pub attention: bool,
    pub code: String,
    pub message: String,
    pub objects: Vec<String>,
}

/// What a [`Notice`] is.
#[verifier::ext_equal]
pub struct NoticeView {
    pub attention: bool,
    pub code: Seq<char>,
    pub message: Seq<char>,
    pub objects: Seq<Seq<char>>,
}

impl View for Notice {
    type V = NoticeView;

    open spec fn view(&self) -> NoticeView {
        NoticeView {
            attention: self.attention,
            code: self.code@,
            message: self.message@,
            objects: text::texts(self.objects@),
        }
    }
}

/// The views of a list of notices.
pub open spec fn notices_view(v: Seq<Notice>) -> Seq<NoticeView> {
    Seq::new(v.len(), |i: int| v[i]@)
}

/// A notice about nothing in particular.
pub fn plain(attention: bool, code: &str, message: String) -> (r: Notice)
    ensures
        r@ == (NoticeView { attention, code: code@, message: message@, objects: Seq::empty() }),
{
    let r = Notice { attention, code: code.to_owned(), message, objects: Vec::new() };
    assert(r@.objects == Seq::<Seq<char>>::empty());
    r
}

/// The name of a net as an object of a notice.
pub open spec fn net_object(name: Seq<char>) -> Seq<char> {
    "net:"@ + name
}

pub fn net_object_of(name: &str) -> (r: String)
    ensures
        r@ == net_object(name@),
{
    let mut out = "net:".to_owned();
    out.append(name);
    out
}

} // verus!
