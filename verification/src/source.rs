//! Identifiers and names of the sources that events happen at.
use vstd::prelude::*;

verus! {

/// Identifies the light, surface, material or detector that an event happened at.
#[derive(Clone, Copy, PartialEq, Eq, Structural, Debug, Hash)]
pub enum SrcId {
    NoSource,
    /// Any source, whatever its kind.
    SrcId(u16),
    Mat(u16),
    Surf(u16),
    /// A surface together with the material behind it.
    MatSurf(u16),
    Light(u16),
    Detector(u16),
}

/// A number for each identifier: the kind in the high half, the number of the source in the low.
pub open spec fn src_code(id: SrcId) -> u32 {
    (match id {
        SrcId::NoSource => 0int,
        SrcId::SrcId(n) => 0x1_0000 + n,
        SrcId::Mat(n) => 0x2_0000 + n,
        SrcId::Surf(n) => 0x3_0000 + n,
        SrcId::MatSurf(n) => 0x4_0000 + n,
        SrcId::Light(n) => 0x5_0000 + n,
        SrcId::Detector(n) => 0x6_0000 + n,
    }) as u32
}

pub open spec fn is_src_code(code: u32) -> bool {
    code == 0 || 0x1_0000 <= code < 0x7_0000
}

/// Different identifiers have different codes.
pub proof fn src_code_is_injective(a: SrcId, b: SrcId)
    ensures
        src_code(a) == src_code(b) ==> a == b,
        is_src_code(src_code(a)),
{
}

impl SrcId {
    pub fn code(&self) -> (code: u32)
        ensures
            code == src_code(*self),
    {
        match *self {
            SrcId::NoSource => 0u32,
            SrcId::SrcId(n) => 0x1_0000u32 + n as u32,
            SrcId::Mat(n) => 0x2_0000u32 + n as u32,
            SrcId::Surf(n) => 0x3_0000u32 + n as u32,
            SrcId::MatSurf(n) => 0x4_0000u32 + n as u32,
            SrcId::Light(n) => 0x5_0000u32 + n as u32,
            SrcId::Detector(n) => 0x6_0000u32 + n as u32,
        }
    }

    /// The identifier with the given code.
    pub fn from_code(code: u32) -> (id: SrcId)
        requires
            is_src_code(code),
        ensures
            src_code(id) == code,
    {
        if code == 0 {
            SrcId::NoSource
        } else if code < 0x2_0000 {
            SrcId::SrcId((code - 0x1_0000) as u16)
        } else if code < 0x3_0000 {
            SrcId::Mat((code - 0x2_0000) as u16)
        } else if code < 0x4_0000 {
            SrcId::Surf((code - 0x3_0000) as u16)
        } else if code < 0x5_0000 {
            SrcId::MatSurf((code - 0x4_0000) as u16)
        } else if code < 0x6_0000 {
            SrcId::Light((code - 0x5_0000) as u16)
        } else {
            SrcId::Detector((code - 0x6_0000) as u16)
        }
    }
}

/// Named source identifier for humans.
///
/// Associates a name with a source ID for readable output.
#[derive(Debug, PartialEq, Eq, Hash)]
pub enum SrcName {
    Light(String),
    Surf(String),
    MatSurf(String),
    Mat(String),
    Detector(String),
}

/// The mathematical model of a [`SrcName`].
pub enum NameView {
    Light(Seq<char>),
    Surf(Seq<char>),
    MatSurf(Seq<char>),
    Mat(Seq<char>),
    Detector(Seq<char>),
}

impl View for SrcName {
    type V = NameView;

    open spec fn view(&self) -> NameView {
        match *self {
            SrcName::Light(name) => NameView::Light(name@),
            SrcName::Surf(name) => NameView::Surf(name@),
            SrcName::MatSurf(name) => NameView::MatSurf(name@),
            SrcName::Mat(name) => NameView::Mat(name@),
            SrcName::Detector(name) => NameView::Detector(name@),
        }
    }
}

impl Clone for SrcName {
    fn clone(&self) -> (copy: SrcName)
        ensures
            copy@ == self@,
    {
        match self {
            SrcName::Light(name) => SrcName::Light(name.clone()),
            SrcName::Surf(name) => SrcName::Surf(name.clone()),
            SrcName::MatSurf(name) => SrcName::MatSurf(name.clone()),
            SrcName::Mat(name) => SrcName::Mat(name.clone()),
            SrcName::Detector(name) => SrcName::Detector(name.clone()),
        }
    }
}

impl SrcName {
    /// Whether both names are of the same kind and spelled alike.
    pub fn same(&self, other: &SrcName) -> (same: bool)
        ensures
            same == (self@ == other@),
    {
        match (self, other) {
            (SrcName::Light(a), SrcName::Light(b)) => *a == *b,
            (SrcName::Surf(a), SrcName::Surf(b)) => *a == *b,
            (SrcName::MatSurf(a), SrcName::MatSurf(b)) => *a == *b,
            (SrcName::Mat(a), SrcName::Mat(b)) => *a == *b,
            (SrcName::Detector(a), SrcName::Detector(b)) => *a == *b,
            _ => false,
        }
    }
}

/// The names of a list, each by its model.
pub open spec fn name_views(names: Seq<SrcName>) -> Seq<NameView> {
    Seq::new(names.len(), |k: int| names[k]@)
}

} // verus!
