//! The recommended foreground and background slots of the arts that are
//! drawn with an outline.

use crate::alignment::{ColorAlignment, ForeBack};
use crate::placeholder::valid_slot;
use vstd::prelude::*;

verus! {

/// The distributions whose art has a recommendation, and `Other` for all
/// the rest.
#[allow(non_camel_case_types)]
#[derive(Clone, Copy, Debug, PartialEq, Eq, Structural)]
pub enum Distro {
    Anarchy,
    Antergos,
    ArchStrike,
    Astra_Linux,
    Chapeau,
    Fedora,
    GalliumOS,
    KrassOS,
    Kubuntu,
    Lubuntu,
    openEuler,
    Peppermint,
    Pop__OS,
    Ubuntu_Cinnamon,
    Ubuntu_Kylin,
    Ubuntu_MATE,
    Ubuntu_old,
    Ubuntu_Studio,
    Ubuntu_Sway,
    Ultramarine_Linux,
    Univention,
    Vanilla,
    Xubuntu,
    Other,
}

/// The recommended pair of a distribution: none for `Other`, slot 1 over
/// slot 2 for Antergos, slot 2 over slot 1 for every other one.
pub open spec fn recommended(distro: Distro) -> Option<ForeBack> {
    if distro is Other {
        None
    } else if distro is Antergos {
        Some((1u8, 2u8))
    } else {
        Some((2u8, 1u8))
    }
}

/// A recommended pair names two different slots that exist.
pub proof fn lemma_recommended_valid(distro: Distro)
    ensures
        recommended(distro) matches Some((fore, back)) ==> valid_slot(fore) && valid_slot(back)
            && fore != back,
{
}

impl ColorAlignment {
    /// The recommended foreground and background slots for the art of a
    /// distribution, or `None` where the art is coloured as a whole.
    pub fn fore_back(distro: Distro) -> (r: Option<ForeBack>)
        ensures
            r == recommended(distro),
    {
        match distro {
            Distro::Anarchy
            | Distro::ArchStrike
            | Distro::Astra_Linux
            | Distro::Chapeau
            | Distro::Fedora
            | Distro::GalliumOS
            | Distro::KrassOS
            | Distro::Kubuntu
            | Distro::Lubuntu
            | Distro::openEuler
            | Distro::Peppermint
            | Distro::Pop__OS
            | Distro::Ubuntu_Cinnamon
            | Distro::Ubuntu_Kylin
            | Distro::Ubuntu_MATE
            | Distro::Ubuntu_old
            | Distro::Ubuntu_Studio
            | Distro::Ubuntu_Sway
            | Distro::Ultramarine_Linux
            | Distro::Univention
            | Distro::Vanilla
            | Distro::Xubuntu => Some((2, 1)),
            Distro::Antergos => Some((1, 2)),
            Distro::Other => None,
        }
    }
}

} // verus!
