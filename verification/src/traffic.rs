//! Lane classification: the cosmetic lane layout an edge carries. The
//! storage is a plain variable-length sequence of lane types.

use vstd::prelude::*;

verus! {

broadcast use vstd::string::to_string_from_display_ensures_for_str;

#[derive(Copy, Clone, Eq, PartialEq, Structural, Debug)]
pub enum LaneType {
    Grass,
    Sidewalk,
    NormalForward,
    NormalReverse,
    DirtForward,
    DirtReverse,
    BusForward,
    BusReverse,
    ParkingForward,
    ParkingReverse,
    ShoulderForward,
    ShoulderReverse,
}

#[derive(Copy, Clone, Eq, PartialEq, Structural, Debug)]
pub enum LaneWidth {
    Half,
    Full,
}

#[derive(Copy, Clone, Eq, PartialEq, Structural, Debug)]
pub enum LaneDirection {
    Forward,
    Reverse,
}

#[derive(Copy, Clone, Eq, PartialEq, Structural, Debug)]
pub enum LaneBorder {
    Edge,
    Middle,
}

#[derive(Copy, Clone, Eq, PartialEq, Structural, Debug)]
pub enum LaneFlow {
    Convergent,
    Divergent,
}

#[derive(Copy, Clone, Eq, PartialEq, Structural, Debug)]
pub enum LaneCrossing {
    SingleDashed,
    SingleContinuous,
    DoubleDashed,
    DoubleContinuous,
}

#[derive(Copy, Clone, Eq, PartialEq, Structural, Debug)]
pub enum LaneSeparator {
    Nothing,
    Curb,
    BorderStrip(LaneBorder),
    SeparationStrip(LaneFlow, LaneCrossing),
    ParkingStrip,
}

impl LaneType {
    pub open spec fn spec_width(self) -> LaneWidth {
        match self {
            LaneType::Grass | LaneType::Sidewalk => LaneWidth::Half,
            _ => LaneWidth::Full,
        }
    }

    /// Pedestrian-only surfaces are half lanes; everything else is a full
    /// lane.
    pub fn width(self) -> (r: LaneWidth)
        ensures
            r == self.spec_width(),
    {
        match self {
            LaneType::Grass | LaneType::Sidewalk => LaneWidth::Half,
            _ => LaneWidth::Full,
        }
    }

    pub open spec fn spec_name(self) -> Seq<char> {
        match self {
            LaneType::Grass => "Grass"@,
            LaneType::Sidewalk => "Sidewalk"@,
            LaneType::NormalForward => "NormalForward"@,
            LaneType::NormalReverse => "NormalReverse"@,
            LaneType::DirtForward => "DirtForward"@,
            LaneType::DirtReverse => "DirtReverse"@,
            LaneType::BusForward => "BusForward"@,
            LaneType::BusReverse => "BusReverse"@,
            LaneType::ParkingForward => "ParkingForward"@,
            LaneType::ParkingReverse => "ParkingReverse"@,
            LaneType::ShoulderForward => "ShoulderForward"@,
            LaneType::ShoulderReverse => "ShoulderReverse"@,
        }
    }

    /// The variant's name, as the registry keys it.
    pub fn name_internal(self) -> (r: String)
        ensures
            r@ == self.spec_name(),
    {
        match self {
            LaneType::Grass => "Grass".to_string(),
            LaneType::Sidewalk => "Sidewalk".to_string(),
            LaneType::NormalForward => "NormalForward".to_string(),
            LaneType::NormalReverse => "NormalReverse".to_string(),
            LaneType::DirtForward => "DirtForward".to_string(),
            LaneType::DirtReverse => "DirtReverse".to_string(),
            LaneType::BusForward => "BusForward".to_string(),
            LaneType::BusReverse => "BusReverse".to_string(),
            LaneType::ParkingForward => "ParkingForward".to_string(),
            LaneType::ParkingReverse => "ParkingReverse".to_string(),
            LaneType::ShoulderForward => "ShoulderForward".to_string(),
            LaneType::ShoulderReverse => "ShoulderReverse".to_string(),
        }
    }

    pub open spec fn spec_direction(self) -> Option<LaneDirection> {
        match self {
            LaneType::Grass | LaneType::Sidewalk => None,
            LaneType::NormalForward
            | LaneType::DirtForward
            | LaneType::BusForward
            | LaneType::ParkingForward
            | LaneType::ShoulderForward => Some(LaneDirection::Forward),
            _ => Some(LaneDirection::Reverse),
        }
    }

    /// The traffic direction of a lane, if it carries traffic at all.
    pub fn direction(self) -> (r: Option<LaneDirection>)
        ensures
            r == self.spec_direction(),
    {
        match self {
            LaneType::Grass | LaneType::Sidewalk => None,
            LaneType::NormalForward
            | LaneType::DirtForward
            | LaneType::BusForward
            | LaneType::ParkingForward
            | LaneType::ShoulderForward => Some(LaneDirection::Forward),
            _ => Some(LaneDirection::Reverse),
        }
    }

    /// The separator drawn between `previous` and this lane, reading the
    /// lane list from its first entry.
    pub open spec fn spec_pre_separator(self, previous: LaneType, first_lane: bool) -> LaneSeparator {
        let border = if first_lane {
            LaneSeparator::BorderStrip(LaneBorder::Edge)
        } else {
            LaneSeparator::BorderStrip(LaneBorder::Middle)
        };
        match self {
            LaneType::Grass => match previous {
                LaneType::Grass
                | LaneType::Sidewalk
                | LaneType::DirtForward
                | LaneType::DirtReverse
                | LaneType::ShoulderForward
                | LaneType::ShoulderReverse => LaneSeparator::Nothing,
                _ => LaneSeparator::Curb,
            },
            LaneType::Sidewalk => match previous {
                LaneType::Grass
                | LaneType::Sidewalk
                | LaneType::DirtForward
                | LaneType::DirtReverse => LaneSeparator::Nothing,
                _ => LaneSeparator::Curb,
            },
            LaneType::NormalForward => match previous {
                LaneType::Grass | LaneType::Sidewalk => border,
                LaneType::NormalForward => LaneSeparator::SeparationStrip(
                    LaneFlow::Convergent,
                    LaneCrossing::SingleDashed,
                ),
                LaneType::NormalReverse => LaneSeparator::SeparationStrip(
                    LaneFlow::Divergent,
                    LaneCrossing::DoubleContinuous,
                ),
                LaneType::BusForward => LaneSeparator::SeparationStrip(
                    LaneFlow::Convergent,
                    LaneCrossing::DoubleContinuous,
                ),
                LaneType::BusReverse => LaneSeparator::SeparationStrip(
                    LaneFlow::Divergent,
                    LaneCrossing::DoubleContinuous,
                ),
                _ => LaneSeparator::Nothing,
            },
            LaneType::NormalReverse => match previous {
                LaneType::Grass | LaneType::Sidewalk => border,
                LaneType::NormalForward => LaneSeparator::SeparationStrip(
                    LaneFlow::Divergent,
                    LaneCrossing::DoubleContinuous,
                ),
                LaneType::NormalReverse => LaneSeparator::SeparationStrip(
                    LaneFlow::Convergent,
                    LaneCrossing::SingleDashed,
                ),
                LaneType::BusForward => LaneSeparator::SeparationStrip(
                    LaneFlow::Divergent,
                    LaneCrossing::DoubleContinuous,
                ),
                LaneType::BusReverse => LaneSeparator::SeparationStrip(
                    LaneFlow::Convergent,
                    LaneCrossing::DoubleContinuous,
                ),
                _ => LaneSeparator::Nothing,
            },
            LaneType::DirtForward | LaneType::DirtReverse => LaneSeparator::Nothing,
            LaneType::BusForward => match previous {
                LaneType::Grass | LaneType::Sidewalk => border,
                LaneType::NormalForward => LaneSeparator::SeparationStrip(
                    LaneFlow::Convergent,
                    LaneCrossing::DoubleContinuous,
                ),
                LaneType::NormalReverse => LaneSeparator::SeparationStrip(
                    LaneFlow::Divergent,
                    LaneCrossing::DoubleContinuous,
                ),
                LaneType::BusForward => LaneSeparator::SeparationStrip(
                    LaneFlow::Convergent,
                    LaneCrossing::SingleDashed,
                ),
                LaneType::BusReverse => LaneSeparator::SeparationStrip(
                    LaneFlow::Divergent,
                    LaneCrossing::SingleDashed,
                ),
                _ => LaneSeparator::Nothing,
            },
            LaneType::BusReverse => match previous {
                LaneType::Grass | LaneType::Sidewalk => border,
                LaneType::NormalForward => LaneSeparator::SeparationStrip(
                    LaneFlow::Divergent,
                    LaneCrossing::DoubleContinuous,
                ),
                LaneType::NormalReverse => LaneSeparator::SeparationStrip(
                    LaneFlow::Convergent,
                    LaneCrossing::DoubleContinuous,
                ),
                LaneType::BusForward => LaneSeparator::SeparationStrip(
                    LaneFlow::Divergent,
                    LaneCrossing::SingleDashed,
                ),
                LaneType::BusReverse => LaneSeparator::SeparationStrip(
                    LaneFlow::Convergent,
                    LaneCrossing::SingleDashed,
                ),
                _ => LaneSeparator::Nothing,
            },
            LaneType::ParkingForward | LaneType::ParkingReverse => match previous {
                LaneType::Grass | LaneType::Sidewalk => LaneSeparator::Nothing,
                LaneType::ParkingForward | LaneType::ParkingReverse => LaneSeparator::SeparationStrip(
                    LaneFlow::Convergent,
                    LaneCrossing::SingleContinuous,
                ),
                _ => LaneSeparator::ParkingStrip,
            },
            LaneType::ShoulderForward | LaneType::ShoulderReverse => match previous {
                LaneType::Grass
                | LaneType::Sidewalk
                | LaneType::DirtForward
                | LaneType::DirtReverse
                | LaneType::ShoulderForward
                | LaneType::ShoulderReverse => LaneSeparator::Nothing,
                _ => LaneSeparator::SeparationStrip(
                    LaneFlow::Convergent,
                    LaneCrossing::SingleContinuous,
                ),
            },
        }
    }

    /// See [`Self::spec_pre_separator`].
    pub fn pre_separator(self, previous: LaneType, first_lane: bool) -> (r: LaneSeparator)
        ensures
            r == self.spec_pre_separator(previous, first_lane),
    {
        let border = if first_lane {
            LaneSeparator::BorderStrip(LaneBorder::Edge)
        } else {
            LaneSeparator::BorderStrip(LaneBorder::Middle)
        };
        match self {
            LaneType::Grass => match previous {
                LaneType::Grass
                | LaneType::Sidewalk
                | LaneType::DirtForward
                | LaneType::DirtReverse
                | LaneType::ShoulderForward
                | LaneType::ShoulderReverse => LaneSeparator::Nothing,
                _ => LaneSeparator::Curb,
            },
            LaneType::Sidewalk => match previous {
                LaneType::Grass
                | LaneType::Sidewalk
                | LaneType::DirtForward
                | LaneType::DirtReverse => LaneSeparator::Nothing,
                _ => LaneSeparator::Curb,
            },
            LaneType::NormalForward => match previous {
                LaneType::Grass | LaneType::Sidewalk => border,
                LaneType::NormalForward => LaneSeparator::SeparationStrip(
                    LaneFlow::Convergent,
                    LaneCrossing::SingleDashed,
                ),
                LaneType::NormalReverse => LaneSeparator::SeparationStrip(
                    LaneFlow::Divergent,
                    LaneCrossing::DoubleContinuous,
                ),
                LaneType::BusForward => LaneSeparator::SeparationStrip(
                    LaneFlow::Convergent,
                    LaneCrossing::DoubleContinuous,
                ),
                LaneType::BusReverse => LaneSeparator::SeparationStrip(
                    LaneFlow::Divergent,
                    LaneCrossing::DoubleContinuous,
                ),
                _ => LaneSeparator::Nothing,
            },
            LaneType::NormalReverse => match previous {
                LaneType::Grass | LaneType::Sidewalk => border,
                LaneType::NormalForward => LaneSeparator::SeparationStrip(
                    LaneFlow::Divergent,
                    LaneCrossing::DoubleContinuous,
                ),
                LaneType::NormalReverse => LaneSeparator::SeparationStrip(
                    LaneFlow::Convergent,
                    LaneCrossing::SingleDashed,
                ),
                LaneType::BusForward => LaneSeparator::SeparationStrip(
                    LaneFlow::Divergent,
                    LaneCrossing::DoubleContinuous,
                ),
                LaneType::BusReverse => LaneSeparator::SeparationStrip(
                    LaneFlow::Convergent,
                    LaneCrossing::DoubleContinuous,
                ),
                _ => LaneSeparator::Nothing,
            },
            LaneType::DirtForward | LaneType::DirtReverse => LaneSeparator::Nothing,
            LaneType::BusForward => match previous {
                LaneType::Grass | LaneType::Sidewalk => border,
                LaneType::NormalForward => LaneSeparator::SeparationStrip(
                    LaneFlow::Convergent,
                    LaneCrossing::DoubleContinuous,
                ),
                LaneType::NormalReverse => LaneSeparator::SeparationStrip(
                    LaneFlow::Divergent,
                    LaneCrossing::DoubleContinuous,
                ),
                LaneType::BusForward => LaneSeparator::SeparationStrip(
                    LaneFlow::Convergent,
                    LaneCrossing::SingleDashed,
                ),
                LaneType::BusReverse => LaneSeparator::SeparationStrip(
                    LaneFlow::Divergent,
                    LaneCrossing::SingleDashed,
                ),
                _ => LaneSeparator::Nothing,
            },
            LaneType::BusReverse => match previous {
                LaneType::Grass | LaneType::Sidewalk => border,
                LaneType::NormalForward => LaneSeparator::SeparationStrip(
                    LaneFlow::Divergent,
                    LaneCrossing::DoubleContinuous,
                ),
                LaneType::NormalReverse => LaneSeparator::SeparationStrip(
                    LaneFlow::Convergent,
                    LaneCrossing::DoubleContinuous,
                ),
                LaneType::BusForward => LaneSeparator::SeparationStrip(
                    LaneFlow::Divergent,
                    LaneCrossing::SingleDashed,
                ),
                LaneType::BusReverse => LaneSeparator::SeparationStrip(
                    LaneFlow::Convergent,
                    LaneCrossing::SingleDashed,
                ),
                _ => LaneSeparator::Nothing,
            },
            LaneType::ParkingForward | LaneType::ParkingReverse => match previous {
                LaneType::Grass | LaneType::Sidewalk => LaneSeparator::Nothing,
                LaneType::ParkingForward | LaneType::ParkingReverse => LaneSeparator::SeparationStrip(
                    LaneFlow::Convergent,
                    LaneCrossing::SingleContinuous,
                ),
                _ => LaneSeparator::ParkingStrip,
            },
            LaneType::ShoulderForward | LaneType::ShoulderReverse => match previous {
                LaneType::Grass
                | LaneType::Sidewalk
                | LaneType::DirtForward
                | LaneType::DirtReverse
                | LaneType::ShoulderForward
                | LaneType::ShoulderReverse => LaneSeparator::Nothing,
                _ => LaneSeparator::SeparationStrip(
                    LaneFlow::Convergent,
                    LaneCrossing::SingleContinuous,
                ),
            },
        }
    }
}

/// The lane types, in declaration order.
pub open spec fn lane_type_at(i: int) -> LaneType {
    if i == 0 {
        LaneType::Grass
    } else if i == 1 {
        LaneType::Sidewalk
    } else if i == 2 {
        LaneType::NormalForward
    } else if i == 3 {
        LaneType::NormalReverse
    } else if i == 4 {
        LaneType::DirtForward
    } else if i == 5 {
        LaneType::DirtReverse
    } else if i == 6 {
        LaneType::BusForward
    } else if i == 7 {
        LaneType::BusReverse
    } else if i == 8 {
        LaneType::ParkingForward
    } else if i == 9 {
        LaneType::ParkingReverse
    } else if i == 10 {
        LaneType::ShoulderForward
    } else {
        LaneType::ShoulderReverse
    }
}

/// A registry from lane-type names to variants.
pub struct LaneTypeManager {
    name_to_variant: Vec<(String, LaneType)>,
}

impl LaneTypeManager {
    pub closed spec fn entries(self) -> Seq<(String, LaneType)> {
        self.name_to_variant@
    }

    /// Build the registry over every lane type, keyed by its name.
    pub fn new() -> (r: LaneTypeManager)
        ensures
            r.entries().len() == 12,
            forall|i: int|
                0 <= i < 12 ==> (#[trigger] r.entries()[i]).1 == lane_type_at(i) && r.entries()[
                    i
                ].0@ == lane_type_at(i).spec_name(),
    {
        let mut name_to_variant: Vec<(String, LaneType)> = Vec::new();
        name_to_variant.push((LaneType::Grass.name_internal(), LaneType::Grass));
        name_to_variant.push((LaneType::Sidewalk.name_internal(), LaneType::Sidewalk));
        name_to_variant.push((LaneType::NormalForward.name_internal(), LaneType::NormalForward));
        name_to_variant.push((LaneType::NormalReverse.name_internal(), LaneType::NormalReverse));
        name_to_variant.push((LaneType::DirtForward.name_internal(), LaneType::DirtForward));
        name_to_variant.push((LaneType::DirtReverse.name_internal(), LaneType::DirtReverse));
        name_to_variant.push((LaneType::BusForward.name_internal(), LaneType::BusForward));
        name_to_variant.push((LaneType::BusReverse.name_internal(), LaneType::BusReverse));
        name_to_variant.push((LaneType::ParkingForward.name_internal(), LaneType::ParkingForward));
        name_to_variant.push((LaneType::ParkingReverse.name_internal(), LaneType::ParkingReverse));
        name_to_variant.push(
            (LaneType::ShoulderForward.name_internal(), LaneType::ShoulderForward),
        );
        name_to_variant.push(
            (LaneType::ShoulderReverse.name_internal(), LaneType::ShoulderReverse),
        );
        LaneTypeManager { name_to_variant }
    }
}

/// The per-edge lane layout: an ordered sequence of lane types.
pub struct LaneDefinition {
    lanes: Vec<LaneType>,
}

/// Largest number of lanes an edge can carry.
pub const MAX_LANES: u8 = 40;

impl LaneDefinition {
    pub closed spec fn lanes_seq(self) -> Seq<LaneType> {
        self.lanes@
    }

    pub open spec fn wf(self) -> bool {
        1 <= self.lanes_seq().len() <= MAX_LANES
    }

    /// A fresh layout of `size` grass lanes. A zero or oversized width is
    /// a caller error.
    pub fn new(size: u8) -> (r: LaneDefinition)
        requires
            1 <= size <= MAX_LANES,
        ensures
            r.wf(),
            r.lanes_seq().len() == size,
            forall|i: int| 0 <= i < size ==> r.lanes_seq()[i] == LaneType::Grass,
    {
        let mut lanes: Vec<LaneType> = Vec::new();
        let mut i: u8 = 0;
        while i < size
            invariant
                i <= size,
                lanes@.len() == i,
                forall|j: int| 0 <= j < i ==> lanes@[j] == LaneType::Grass,
            decreases size - i,
        {
            lanes.push(LaneType::Grass);
            i = i + 1;
        }
        LaneDefinition { lanes }
    }

    pub fn get_size(&self) -> (r: u8)
        requires
            self.wf(),
        ensures
            r == self.lanes_seq().len(),
    {
        self.lanes.len() as u8
    }
}

} // verus!
