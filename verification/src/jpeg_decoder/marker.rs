//! JPEG markers.
use vstd::prelude::*;

verus! {

/// A marker: the meaning of the byte that follows `0xFF`.
#[derive(Debug, Clone, Copy, PartialEq, Eq, Structural)]
pub enum Marker {
    /// Start of frame `n`, for the codes `0xC0..=0xCF` but DHT, JPG and DAC.
    SOF(u8),
    /// Reserved for JPEG extensions.
    JPG,
    /// Define Huffman tables.
    DHT,
    /// Define arithmetic coding conditioning.
    DAC,
    /// Restart with modulo 8 count `n`.
    RST(u8),
    /// Start of image.
    SOI,
    /// End of image.
    EOI,
    /// Start of scan.
    SOS,
    /// Define quantization tables.
    DQT,
    /// Define number of lines.
    DNL,
    /// Define restart interval.
    DRI,
    /// Define hierarchical progression.
    DHP,
    /// Expand reference components.
    EXP,
    /// Application segment `n`.
    APP(u8),
    /// Reserved for JPEG extensions, `n` in `0..=13`.
    JPGn(u8),
    /// Comment.
    COM,
    /// Temporary private use in arithmetic coding.
    TEM,
    /// Reserved.
    RES,
}

impl Marker {
    /// Whether `byte` can follow `0xFF` as a marker: `0x00` is a stuffed zero
    /// and `0xFF` a fill byte.
    pub open spec fn is_code(byte: u8) -> bool {
        byte != 0x00 && byte != 0xFF
    }

    /// The byte that spells the marker, for a marker that `from_u8` gives.
    /// (`RES` stands for all of `0x02..=0xBF`; its code is the first of them.)
    pub open spec fn code(self) -> u8 {
        match self {
            Marker::TEM => 0x01,
            Marker::RES => 0x02,
            Marker::SOF(n) => (0xC0 + n) as u8,
            Marker::DHT => 0xC4,
            Marker::JPG => 0xC8,
            Marker::DAC => 0xCC,
            Marker::RST(n) => (0xD0 + n) as u8,
            Marker::SOI => 0xD8,
            Marker::EOI => 0xD9,
            Marker::SOS => 0xDA,
            Marker::DQT => 0xDB,
            Marker::DNL => 0xDC,
            Marker::DRI => 0xDD,
            Marker::DHP => 0xDE,
            Marker::EXP => 0xDF,
            Marker::APP(n) => (0xE0 + n) as u8,
            Marker::JPGn(n) => (0xF0 + n) as u8,
            Marker::COM => 0xFE,
        }
    }

    /// Whether the marker is one that `from_u8` gives: its number is in range.
    pub open spec fn wf(self) -> bool {
        match self {
            Marker::SOF(n) => n <= 15 && n != 4 && n != 8 && n != 12,
            Marker::RST(n) => n <= 7,
            Marker::APP(n) => n <= 15,
            Marker::JPGn(n) => n <= 13,
            _ => true,
        }
    }

    /// The marker that `byte` spells.
    pub open spec fn of(byte: u8) -> Option<Marker> {
        if byte == 0x00 || byte == 0xFF {
            None
        } else if byte == 0x01 {
            Some(Marker::TEM)
        } else if byte <= 0xBF {
            Some(Marker::RES)
        } else if byte == 0xC4 {
            Some(Marker::DHT)
        } else if byte == 0xC8 {
            Some(Marker::JPG)
        } else if byte == 0xCC {
            Some(Marker::DAC)
        } else if byte <= 0xCF {
            Some(Marker::SOF((byte - 0xC0) as u8))
        } else if byte <= 0xD7 {
            Some(Marker::RST((byte - 0xD0) as u8))
        } else if byte == 0xD8 {
            Some(Marker::SOI)
        } else if byte == 0xD9 {
            Some(Marker::EOI)
        } else if byte == 0xDA {
            Some(Marker::SOS)
        } else if byte == 0xDB {
            Some(Marker::DQT)
        } else if byte == 0xDC {
            Some(Marker::DNL)
        } else if byte == 0xDD {
            Some(Marker::DRI)
        } else if byte == 0xDE {
            Some(Marker::DHP)
        } else if byte == 0xDF {
            Some(Marker::EXP)
        } else if byte <= 0xEF {
            Some(Marker::APP((byte - 0xE0) as u8))
        } else if byte <= 0xFD {
            Some(Marker::JPGn((byte - 0xF0) as u8))
        } else {
            Some(Marker::COM)
        }
    }

    /// Every byte but `0x00` and `0xFF` spells a marker, and every marker but
    /// `RES` is spelled by its code alone.
    pub proof fn law_codes(byte: u8)
        ensures
            Marker::of(byte) is Some <==> Marker::is_code(byte),
            Marker::of(byte) matches Some(marker) ==> marker.wf() && (marker != Marker::RES
                ==> marker.code() == byte),
    {
    }

    /// A marker read back from its code is the same marker.
    pub proof fn law_code_round_trip(marker: Marker)
        requires
            marker.wf(),
        ensures
            Marker::of(marker.code()) == Some(marker),
    {
    }

    /// The marker that the byte behind `0xFF` spells, if it spells one.
    pub fn from_u8(n: u8) -> (marker: Option<Marker>)
        ensures
            marker == Marker::of(n),
    {
        match n {
            0x00 => None,
            0x01 => Some(Marker::TEM),
            0x02..=0xBF => Some(Marker::RES),
            0xC4 => Some(Marker::DHT),
            0xC8 => Some(Marker::JPG),
            0xCC => Some(Marker::DAC),
            0xC0..=0xCF => Some(Marker::SOF(n - 0xC0)),
            0xD0..=0xD7 => Some(Marker::RST(n - 0xD0)),
            0xD8 => Some(Marker::SOI),
            0xD9 => Some(Marker::EOI),
            0xDA => Some(Marker::SOS),
            0xDB => Some(Marker::DQT),
            0xDC => Some(Marker::DNL),
            0xDD => Some(Marker::DRI),
            0xDE => Some(Marker::DHP),
            0xDF => Some(Marker::EXP),
            0xE0..=0xEF => Some(Marker::APP(n - 0xE0)),
            0xF0..=0xFD => Some(Marker::JPGn(n - 0xF0)),
            0xFE => Some(Marker::COM),
            0xFF => None,
        }
    }

    /// Whether segments of this marker open with a two-byte length.
    pub fn has_length(&self) -> (b: bool)
        ensures
            b == !(*self is RST || *self is SOI || *self is EOI || *self is TEM),
    {
        match self {
            Marker::RST(_) | Marker::SOI | Marker::EOI | Marker::TEM => false,
            _ => true,
        }
    }
}

} // verus!
