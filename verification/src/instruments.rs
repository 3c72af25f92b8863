//! The instrument roster and the decisions the sheet interpreter makes
//! about it.  The waveform synthesis itself is floating-point work done
//! by the program around this library; here live the choices that can
//! be checked: which instrument a name selects and which kind of note
//! an instrument consumes.

use vstd::prelude::*;
use crate::harmonics::NoteType;

verus! {

/// The instruments a note sheet can select.
#[derive(PartialEq, Eq, Debug, Clone, Copy)]
pub enum InstrumentList {
    /// No instrument chosen yet; notes cannot be recorded.
    Unset,
    /// A plain sine wave.
    SineWave,
    /// A percussive stack of detuned sine waves.
    Xylophone,
}

/// The kind of note an instrument consumes; `None` while no instrument
/// has been chosen, when recording notes is an error.
pub fn note_type_for(player: &InstrumentList) -> (r: Option<NoteType>)
    ensures
        *player is Unset <==> r is None,
        !(*player is Unset) ==> r == Some(NoteType::MelodicNote),
{
    match player {
        InstrumentList::Unset => None,
        InstrumentList::SineWave => Some(NoteType::MelodicNote),
        InstrumentList::Xylophone => Some(NoteType::MelodicNote),
    }
}

/// The bytes of the instrument name "sinewave".
pub open spec fn sinewave_bytes() -> Seq<u8> {
    seq![115u8, 105u8, 110u8, 101u8, 119u8, 97u8, 118u8, 101u8]
}

/// The bytes of the instrument name "simpledrum".
pub open spec fn simpledrum_bytes() -> Seq<u8> {
    seq![115u8, 105u8, 109u8, 112u8, 108u8, 101u8, 100u8, 114u8, 117u8, 109u8]
}

/// The instrument a (lowercased) name selects, or `None` for an unknown
/// name, when the sheet is in error.
pub fn instrument_for_name(name: &[u8]) -> (r: Option<InstrumentList>)
    ensures
        name@ == sinewave_bytes() ==> r == Some(InstrumentList::SineWave),
        name@ == simpledrum_bytes() ==> r == Some(InstrumentList::Xylophone),
        name@ != sinewave_bytes() && name@ != simpledrum_bytes() ==> r is None,
{
    if name.len() == 8 && name[0] == 115 && name[1] == 105 && name[2] == 110 && name[3] == 101
        && name[4] == 119 && name[5] == 97 && name[6] == 118 && name[7] == 101 {
        proof {
            assert(name@ =~= sinewave_bytes());
        }
        Some(InstrumentList::SineWave)
    } else if name.len() == 10 && name[0] == 115 && name[1] == 105 && name[2] == 109 && name[3]
        == 112 && name[4] == 108 && name[5] == 101 && name[6] == 100 && name[7] == 114 && name[8]
        == 117 && name[9] == 109 {
        proof {
            assert(name@ =~= simpledrum_bytes());
        }
        Some(InstrumentList::Xylophone)
    } else {
        None
    }
}

} // verus!
