//! Classification of the leading word of a record.
use vstd::prelude::*;

use crate::text::chars_of;

verus! {

/// The kind of record a line describes, named by its leading word.
#[derive(Clone, Debug, PartialEq)]
pub enum Tag {
    F,
    V,
    Vn,
    Vt,
    Unknown(String),
}

/// The mathematical value of a [`Tag`]: an unknown tag keeps its text.
pub enum TagView {
    F,
    V,
    Vn,
    Vt,
    Unknown(Seq<char>),
}

impl View for Tag {
    type V = TagView;

    open spec fn view(&self) -> TagView {
        match self {
            Tag::F => TagView::F,
            Tag::V => TagView::V,
            Tag::Vn => TagView::Vn,
            Tag::Vt => TagView::Vt,
            Tag::Unknown(s) => TagView::Unknown(s@),
        }
    }
}

/// The tag that the word `s` names: exact match against the known names.
pub open spec fn tag_of(s: Seq<char>) -> TagView {
    if s == seq!['f'] {
        TagView::F
    } else if s == seq!['v'] {
        TagView::V
    } else if s == seq!['v', 'n'] {
        TagView::Vn
    } else if s == seq!['v', 't'] {
        TagView::Vt
    } else {
        TagView::Unknown(s)
    }
}

impl Tag {
    /// Classifies a word; any word other than `f`, `v`, `vn` and `vt` is
    /// kept verbatim as an unknown tag.
    pub fn from_str(s: &str) -> (r: Tag)
        ensures
            r@ == tag_of(s@),
    {
        let cs = chars_of(s);
        if cs.len() == 1 && cs[0] == 'f' {
            assert(cs@ =~= seq!['f']);
            Tag::F
        } else if cs.len() == 1 && cs[0] == 'v' {
            assert(cs@ =~= seq!['v']);
            Tag::V
        } else if cs.len() == 2 && cs[0] == 'v' && cs[1] == 'n' {
            assert(cs@ =~= seq!['v', 'n']);
            Tag::Vn
        } else if cs.len() == 2 && cs[0] == 'v' && cs[1] == 't' {
            assert(cs@ =~= seq!['v', 't']);
            Tag::Vt
        } else {
            Tag::Unknown(String::from_str(s))
        }
    }
}

} // verus!
