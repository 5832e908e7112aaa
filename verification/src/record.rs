//! The probe record model: the typed result of probing one media
//! file, a container description plus a sequence of streams.
//!
//! Every field the prober may omit is optional; `codec_type` alone is
//! always present. Numeric container attributes (size, duration, bit
//! rate) arrive as decimal strings, exactly as the prober emits them.

use vstd::prelude::*;

verus! {

/// One elementary stream of a probed file.
#[derive(Clone, PartialEq, Debug)]
pub struct Stream {
    pub codec_type: String,
    pub codec_name: Option<String>,
    pub profile: Option<String>,
    pub width: Option<i32>,
    pub height: Option<i32>,
    pub r_frame_rate: Option<String>,
    pub bit_rate: Option<String>,
    pub pix_fmt: Option<String>,
    pub channels: Option<i32>,
}

/// The mathematical value of a `Stream`.
pub struct StreamV {
    pub codec_type: Seq<char>,
    pub codec_name: Option<Seq<char>>,
    pub profile: Option<Seq<char>>,
    pub width: Option<i32>,
    pub height: Option<i32>,
    pub r_frame_rate: Option<Seq<char>>,
    pub bit_rate: Option<Seq<char>>,
    pub pix_fmt: Option<Seq<char>>,
    pub channels: Option<i32>,
}

impl View for Stream {
    type V = StreamV;

    open spec fn view(&self) -> StreamV {
        StreamV {
            codec_type: self.codec_type@,
            codec_name: self.codec_name.deep_view(),
            profile: self.profile.deep_view(),
            width: self.width,
            height: self.height,
            r_frame_rate: self.r_frame_rate.deep_view(),
            bit_rate: self.bit_rate.deep_view(),
            pix_fmt: self.pix_fmt.deep_view(),
            channels: self.channels,
        }
    }
}

impl DeepView for Stream {
    type V = StreamV;

    open spec fn deep_view(&self) -> StreamV {
        self.view()
    }
}

/// Container-level attributes of a probed file.
#[derive(Clone, PartialEq, Debug)]
pub struct Container {
    pub filename: String,
    pub size: String,
    pub duration: String,
    pub bit_rate: Option<String>,
}

/// The mathematical value of a `Container`.
pub struct ContainerV {
    pub filename: Seq<char>,
    pub size: Seq<char>,
    pub duration: Seq<char>,
    pub bit_rate: Option<Seq<char>>,
}

impl View for Container {
    type V = ContainerV;

    open spec fn view(&self) -> ContainerV {
        ContainerV {
            filename: self.filename@,
            size: self.size@,
            duration: self.duration@,
            bit_rate: self.bit_rate.deep_view(),
        }
    }
}

impl DeepView for Container {
    type V = ContainerV;

    open spec fn deep_view(&self) -> ContainerV {
        self.view()
    }
}

/// The full result of probing one media file.
#[derive(Clone, PartialEq, Debug)]
pub struct ProbeRecord {
    pub streams: Vec<Stream>,
    pub container: Container,
}

/// The mathematical value of a `ProbeRecord`.
pub struct ProbeRecordV {
    pub streams: Seq<StreamV>,
    pub container: ContainerV,
}

impl View for ProbeRecord {
    type V = ProbeRecordV;

    open spec fn view(&self) -> ProbeRecordV {
        ProbeRecordV { streams: self.streams.deep_view(), container: self.container@ }
    }
}

impl DeepView for ProbeRecord {
    type V = ProbeRecordV;

    open spec fn deep_view(&self) -> ProbeRecordV {
        self.view()
    }
}

} // verus!
