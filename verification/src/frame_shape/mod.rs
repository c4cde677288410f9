//! Named layouts of the output canvas.

use vstd::prelude::*;
use crate::text::{is_name, same_ignoring_case, to_chars, trim, trimmed};

pub mod audio;
pub mod canvas;
pub mod complete;
pub mod frame_join;
pub mod tiling;

verus! {

/// A named arrangement of regions on the output canvas.
#[derive(Clone, Copy, Debug, PartialEq, Eq, Structural)]
pub enum FrameShape {
    Mono,
    Dual,
    Triple,
    Quad,
    VertEmph,
    HorizEmph,
    VertEmph2,
    HorizEmph2,
    SideVert,
    SideVert2,
    CentreEmphVert,
    CentreEmphVert2,
    MoreHoriz,
    MoreHoriz2,
    ExtendedLandscape,
    ExtendedLandscape2,
    OffsetVH4x4,
}

impl FrameShape {
    /// Number of regions of the layout.
    pub open spec fn region_count(self) -> nat {
        match self {
            FrameShape::Mono => 1,
            FrameShape::Dual => 2,
            FrameShape::Triple => 3,
            FrameShape::Quad => 4,
            FrameShape::VertEmph | FrameShape::VertEmph2 => 5,
            FrameShape::CentreEmphVert | FrameShape::CentreEmphVert2 => 5,
            FrameShape::HorizEmph | FrameShape::HorizEmph2 => 4,
            FrameShape::SideVert | FrameShape::SideVert2 => 3,
            FrameShape::MoreHoriz | FrameShape::MoreHoriz2 => 7,
            FrameShape::ExtendedLandscape2 | FrameShape::OffsetVH4x4 => 8,
            FrameShape::ExtendedLandscape => 9,
        }
    }

    /// Number of regions of the layout.
    pub fn count(&self) -> (n: u32)
        ensures
            n == self.region_count(),
            1 <= n <= 9,
    {
        match self {
            FrameShape::Mono => 1,
            FrameShape::Dual => 2,
            FrameShape::Triple => 3,
            FrameShape::Quad => 4,
            FrameShape::VertEmph | FrameShape::VertEmph2 | FrameShape::CentreEmphVert
            | FrameShape::CentreEmphVert2 => 5,
            FrameShape::HorizEmph | FrameShape::HorizEmph2 => 4,
            FrameShape::SideVert | FrameShape::SideVert2 => 3,
            FrameShape::MoreHoriz | FrameShape::MoreHoriz2 => 7,
            FrameShape::ExtendedLandscape2 | FrameShape::OffsetVH4x4 => 8,
            FrameShape::ExtendedLandscape => 9,
        }
    }
}

/// All layouts, in the order in which a name is looked up.
pub open spec fn all_shapes() -> Seq<FrameShape> {
    seq![
        FrameShape::Mono,
        FrameShape::Dual,
        FrameShape::Triple,
        FrameShape::Quad,
        FrameShape::VertEmph,
        FrameShape::HorizEmph,
        FrameShape::VertEmph2,
        FrameShape::HorizEmph2,
        FrameShape::SideVert,
        FrameShape::SideVert2,
        FrameShape::CentreEmphVert,
        FrameShape::CentreEmphVert2,
        FrameShape::MoreHoriz,
        FrameShape::MoreHoriz2,
        FrameShape::ExtendedLandscape,
        FrameShape::ExtendedLandscape2,
        FrameShape::OffsetVH4x4,
    ]
}

impl FrameShape {
    /// The names of the layout: its number, its long name and its short
    /// name.
    pub open spec fn names_of(self) -> Seq<Seq<char>> {
        match self {
            FrameShape::Mono => seq!["1"@, "Mono"@, "M"@],
            FrameShape::Dual => seq!["2"@, "Double"@, "D"@],
            FrameShape::Triple => seq!["3"@, "Triple"@, "T"@],
            FrameShape::Quad => seq!["4"@, "Quad"@, "Q"@],
            FrameShape::VertEmph => seq!["5"@, "VertEmph"@, "V"@],
            FrameShape::HorizEmph => seq!["6"@, "HorizEmph"@, "H"@],
            FrameShape::VertEmph2 => seq!["7"@, "VertEmph2"@, "V2"@],
            FrameShape::HorizEmph2 => seq!["8"@, "HorizEmph2"@, "H2"@],
            FrameShape::SideVert => seq!["9"@, "SideVert"@, "S"@],
            FrameShape::SideVert2 => seq!["10"@, "SideVert2"@, "S2"@],
            FrameShape::CentreEmphVert => seq!["11"@, "CentreEmphVert"@, "CE"@],
            FrameShape::CentreEmphVert2 => seq!["12"@, "CentreEmphVert2"@, "CE2"@],
            FrameShape::MoreHoriz => seq!["13"@, "MoreHoriz"@, "MH"@],
            FrameShape::MoreHoriz2 => seq!["14"@, "MoreHoriz2"@, "MH2"@],
            FrameShape::ExtendedLandscape => seq!["15"@, "ExtendedLandscape"@, "EL"@],
            FrameShape::ExtendedLandscape2 => seq!["16"@, "ExtendedLandscape2"@, "EL2"@],
            FrameShape::OffsetVH4x4 => seq!["17"@, "OffsetVH"@, "4x4"@],
        }
    }

    /// Whether `text`, without the white space around it, is one of the
    /// layout's names but for capital and small letters.
    pub open spec fn named(self, text: Seq<char>) -> bool {
        exists|k: int|
            0 <= k < 3 && same_ignoring_case(trimmed(text), #[trigger] self.names_of()[k])
    }

    /// The names of the layout: its number, its long name and its short
    /// name.
    pub fn names(&self) -> (names: [&'static str; 3])
        ensures
            names@.len() == 3,
            forall|k: int| 0 <= k < 3 ==> (#[trigger] names@[k])@ == self.names_of()[k],
    {
        match self {
            FrameShape::Mono => ["1", "Mono", "M"],
            FrameShape::Dual => ["2", "Double", "D"],
            FrameShape::Triple => ["3", "Triple", "T"],
            FrameShape::Quad => ["4", "Quad", "Q"],
            FrameShape::VertEmph => ["5", "VertEmph", "V"],
            FrameShape::HorizEmph => ["6", "HorizEmph", "H"],
            FrameShape::VertEmph2 => ["7", "VertEmph2", "V2"],
            FrameShape::HorizEmph2 => ["8", "HorizEmph2", "H2"],
            FrameShape::SideVert => ["9", "SideVert", "S"],
            FrameShape::SideVert2 => ["10", "SideVert2", "S2"],
            FrameShape::CentreEmphVert => ["11", "CentreEmphVert", "CE"],
            FrameShape::CentreEmphVert2 => ["12", "CentreEmphVert2", "CE2"],
            FrameShape::MoreHoriz => ["13", "MoreHoriz", "MH"],
            FrameShape::MoreHoriz2 => ["14", "MoreHoriz2", "MH2"],
            FrameShape::ExtendedLandscape => ["15", "ExtendedLandscape", "EL"],
            FrameShape::ExtendedLandscape2 => ["16", "ExtendedLandscape2", "EL2"],
            FrameShape::OffsetVH4x4 => ["17", "OffsetVH", "4x4"],
        }
    }

    /// Where the diagram of the layout is to be found.
    pub open spec fn diagram_text(self) -> Seq<char> {
        match self {
            FrameShape::Mono => ""@,
            FrameShape::Dual => "../readme_data/frame_shapes_1.svg"@,
            FrameShape::Triple => "../readme_data/frame_shapes_2.svg"@,
            FrameShape::Quad => "../readme_data/frame_shapes_3.svg"@,
            FrameShape::VertEmph => "../readme_data/frame_shapes_4.svg"@,
            FrameShape::HorizEmph => "../readme_data/frame_shapes_5.svg"@,
            FrameShape::VertEmph2 => "../readme_data/frame_shapes_6.svg"@,
            FrameShape::HorizEmph2 => "../readme_data/frame_shapes_6.svg"@,
            FrameShape::SideVert => "../readme_data/frame_shapes_7.svg"@,
            FrameShape::SideVert2 => "../readme_data/frame_shapes_7.svg"@,
            FrameShape::CentreEmphVert => "../readme_data/frame_shapes_8.svg"@,
            FrameShape::CentreEmphVert2 => "../readme_data/frame_shapes_8v.svg"@,
            FrameShape::MoreHoriz => "../readme_data/frame_shapes_8v.svg"@,
            FrameShape::MoreHoriz2 => "../readme_data/frame_shapes_8v.svg"@,
            FrameShape::ExtendedLandscape => "../readme_data/frame_shapes_10.svg"@,
            FrameShape::ExtendedLandscape2 => "../readme_data/frame_shapes_11.svg"@,
            FrameShape::OffsetVH4x4 => "../readme_data/frame_shapes_12.svg"@,
        }
    }

    /// Where the diagram of the layout is to be found.
    pub fn diagram(&self) -> (path: &'static str)
        ensures
            path@ == self.diagram_text(),
    {
        match self {
            FrameShape::Mono => "",
            FrameShape::Dual => "../readme_data/frame_shapes_1.svg",
            FrameShape::Triple => "../readme_data/frame_shapes_2.svg",
            FrameShape::Quad => "../readme_data/frame_shapes_3.svg",
            FrameShape::VertEmph => "../readme_data/frame_shapes_4.svg",
            FrameShape::HorizEmph => "../readme_data/frame_shapes_5.svg",
            FrameShape::VertEmph2 => "../readme_data/frame_shapes_6.svg",
            FrameShape::HorizEmph2 => "../readme_data/frame_shapes_6.svg",
            FrameShape::SideVert => "../readme_data/frame_shapes_7.svg",
            FrameShape::SideVert2 => "../readme_data/frame_shapes_7.svg",
            FrameShape::CentreEmphVert => "../readme_data/frame_shapes_8.svg",
            FrameShape::CentreEmphVert2 => "../readme_data/frame_shapes_8v.svg",
            FrameShape::MoreHoriz => "../readme_data/frame_shapes_8v.svg",
            FrameShape::MoreHoriz2 => "../readme_data/frame_shapes_8v.svg",
            FrameShape::ExtendedLandscape => "../readme_data/frame_shapes_10.svg",
            FrameShape::ExtendedLandscape2 => "../readme_data/frame_shapes_11.svg",
            FrameShape::OffsetVH4x4 => "../readme_data/frame_shapes_12.svg",
        }
    }

    /// All layouts, in the order in which a name is looked up.
    pub fn all() -> (shapes: Vec<FrameShape>)
        ensures
            shapes@ == all_shapes(),
    {
        let shapes = vec![
            FrameShape::Mono,
            FrameShape::Dual,
            FrameShape::Triple,
            FrameShape::Quad,
            FrameShape::VertEmph,
            FrameShape::HorizEmph,
            FrameShape::VertEmph2,
            FrameShape::HorizEmph2,
            FrameShape::SideVert,
            FrameShape::SideVert2,
            FrameShape::CentreEmphVert,
            FrameShape::CentreEmphVert2,
            FrameShape::MoreHoriz,
            FrameShape::MoreHoriz2,
            FrameShape::ExtendedLandscape,
            FrameShape::ExtendedLandscape2,
            FrameShape::OffsetVH4x4,
        ];
        assert(shapes@ =~= all_shapes());
        shapes
    }

    /// The layout that `data` names: the first layout one of whose names is
    /// `data`, without the white space around it and without regard to
    /// capital and small letters. None where `data` names no layout.
    pub fn from_str_opt(data: &str) -> (shape: Option<FrameShape>)
        ensures
            match shape {
                Some(found) => exists|i: int|
                    {
                        &&& 0 <= i < all_shapes().len()
                        &&& #[trigger] all_shapes()[i] == found
                        &&& found.named(data@)
                        &&& forall|j: int| 0 <= j < i ==> !(#[trigger] all_shapes()[j]).named(data@)
                    },
                None => forall|i: int|
                    0 <= i < all_shapes().len() ==> !(#[trigger] all_shapes()[i]).named(data@),
            },
    {
        let text = trim(&to_chars(data));
        let shapes = FrameShape::all();
        let mut i: usize = 0;
        while i < shapes.len()
            invariant
                i <= shapes@.len(),
                shapes@ == all_shapes(),
                text@ == trimmed(data@),
                forall|j: int| 0 <= j < i ==> !(#[trigger] all_shapes()[j]).named(data@),
            decreases shapes@.len() - i,
        {
            let shape = shapes[i];
            let names = shape.names();
            let mut k: usize = 0;
            while k < 3
                invariant
                    k <= 3,
                    names@.len() == 3,
                    i < all_shapes().len(),
                    all_shapes()[i as int] == shape,
                    forall|j: int| 0 <= j < i ==> !(#[trigger] all_shapes()[j]).named(data@),
                    text@ == trimmed(data@),
                    forall|l: int| 0 <= l < 3 ==> (#[trigger] names@[l])@ == shape.names_of()[l],
                    forall|l: int|
                        0 <= l < k ==> !same_ignoring_case(
                            trimmed(data@),
                            #[trigger] shape.names_of()[l],
                        ),
                decreases 3 - k,
            {
                if is_name(&text, names[k]) {
                    assert(same_ignoring_case(trimmed(data@), shape.names_of()[k as int]));
                    assert(all_shapes()[i as int] == shape);
                    return Some(shape);
                }
                k += 1;
            }
            i += 1;
        }
        None
    }
}

} // verus!
