//! Field extraction and formatting: the ten display columns derived
//! from a probe record, with defined fallbacks for missing streams
//! and unparseable values.

use vstd::prelude::*;

use crate::num::all_digits;
use crate::num::dec_micro_clamped;
use crate::num::dec_rep;
use crate::num::digits_val;
use crate::num::div_round_half_up;
use crate::num::int_rep;
use crate::num::is_dec;
use crate::num::pad2_rep;
use crate::num::parse_dec_micro;
use crate::num::parse_u64;
use crate::num::push_dec_i32;
use crate::num::push_pad2;
use crate::num::push_two_dec;
use crate::num::rhu;
use crate::num::two_dec_rep;
use crate::num::MICRO;
use crate::record::ProbeRecord;
use crate::record::ProbeRecordV;
use crate::record::Stream;
use crate::record::StreamV;
use crate::text::contains_str;
use crate::text::contains_sub;
use crate::text::push_char;
use crate::text::split_seq;
use crate::text::split_str;
use crate::text::str_eq;
use vstd::string::StrSliceExecFns;
use vstd::string::StringExecFns;

verus! {

/// Bytes per binary kilobyte.
pub const KB: u64 = 1024;

/// Bytes per binary megabyte.
pub const MB: u64 = 1048576;

/// Bytes per binary gigabyte.
pub const GB: u64 = 1073741824;

/// The size column: a byte count rendered with binary-prefix
/// thresholds, two decimal places from a kilobyte up, plain bytes
/// below; empty when the input is not a byte count.
pub open spec fn spec_format_size(s: Seq<char>) -> Seq<char> {
    if s.len() > 0 && all_digits(s) && digits_val(s) <= u64::MAX {
        let b = digits_val(s);
        if b >= GB {
            two_dec_rep(rhu(b * 100, GB as int)) + seq![' ', 'G', 'B']
        } else if b >= MB {
            two_dec_rep(rhu(b * 100, MB as int)) + seq![' ', 'M', 'B']
        } else if b >= KB {
            two_dec_rep(rhu(b * 100, KB as int)) + seq![' ', 'K', 'B']
        } else {
            dec_rep(b) + seq![' ', 'B']
        }
    } else {
        Seq::empty()
    }
}

/// Renders a decimal byte-count string for the size column.
pub fn format_size(size: &str) -> (r: String)
    ensures
        r@ == spec_format_size(size@),
{
    match parse_u64(size) {
        None => String::new(),
        Some(bytes) => {
            let mut out = String::new();
            if bytes >= GB {
                let h = div_round_half_up(bytes as u128 * 100, GB as u128);
                push_two_dec(h, &mut out);
                push_char(&mut out, ' ');
                push_char(&mut out, 'G');
                push_char(&mut out, 'B');
            } else if bytes >= MB {
                let h = div_round_half_up(bytes as u128 * 100, MB as u128);
                push_two_dec(h, &mut out);
                push_char(&mut out, ' ');
                push_char(&mut out, 'M');
                push_char(&mut out, 'B');
            } else if bytes >= KB {
                let h = div_round_half_up(bytes as u128 * 100, KB as u128);
                push_two_dec(h, &mut out);
                push_char(&mut out, ' ');
                push_char(&mut out, 'K');
                push_char(&mut out, 'B');
            } else {
                crate::num::push_dec_u128(bytes as u128, &mut out);
                push_char(&mut out, ' ');
                push_char(&mut out, 'B');
            }
            proof {
                assert(out@ =~= spec_format_size(size@));
            }
            out
        },
    }
}

/// The `HH:MM:SS` rendering of a whole number of seconds, `MM:SS`
/// below one hour.
pub open spec fn duration_rep(t: int) -> Seq<char>
    recommends
        t >= 0,
{
    if t / 3600 > 0 {
        pad2_rep(t / 3600) + seq![':'] + pad2_rep((t % 3600) / 60) + seq![':'] + pad2_rep(t % 60)
    } else {
        pad2_rep(t / 60) + seq![':'] + pad2_rep(t % 60)
    }
}

/// The duration column: whole seconds rendered `HH:MM:SS` from one
/// hour up, else `MM:SS`; empty when the input is not a decimal
/// number of seconds.
pub open spec fn spec_format_duration(s: Seq<char>) -> Seq<char> {
    if is_dec(s) {
        duration_rep(dec_micro_clamped(s) / 1000000)
    } else {
        Seq::empty()
    }
}

/// Renders a decimal seconds string for the duration column.
pub fn format_duration(duration: &str) -> (r: String)
    ensures
        r@ == spec_format_duration(duration@),
{
    match parse_dec_micro(duration) {
        None => String::new(),
        Some(micro) => {
            let t: u64 = micro / MICRO;
            let mut out = String::new();
            if t / 3600 > 0 {
                push_pad2(t / 3600, &mut out);
                push_char(&mut out, ':');
                push_pad2((t % 3600) / 60, &mut out);
                push_char(&mut out, ':');
                push_pad2(t % 60, &mut out);
            } else {
                push_pad2(t / 60, &mut out);
                push_char(&mut out, ':');
                push_pad2(t % 60, &mut out);
            }
            proof {
                assert(out@ =~= spec_format_duration(duration@));
            }
            out
        },
    }
}

/// The fps column: a rational `numerator/denominator` frame rate
/// rendered with two decimal places; empty on a malformed ratio or a
/// zero denominator.
pub open spec fn spec_fps_field(rate: Option<Seq<char>>) -> Seq<char> {
    match rate {
        Option::None => Seq::empty(),
        Option::Some(r) => {
            let parts = split_seq(r, '/');
            if parts.len() == 2 && is_dec(parts[0]) && is_dec(parts[1]) {
                let n = dec_micro_clamped(parts[0]);
                let d = dec_micro_clamped(parts[1]);
                if d != 0 {
                    two_dec_rep(rhu(n * 100, d))
                } else {
                    Seq::empty()
                }
            } else {
                Seq::empty()
            }
        },
    }
}

/// Renders the frame-rate ratio of a video stream, if any.
pub fn fps_field(rate: Option<&str>) -> (r: String)
    ensures
        r@ == spec_fps_field(rate.deep_view()),
{
    match rate {
        None => String::new(),
        Some(ratio) => {
            let parts = split_str(ratio, '/');
            if parts.len() != 2 {
                return String::new();
            }
            proof {
                assert(parts.deep_view()[0] == parts@[0]@);
                assert(parts.deep_view()[1] == parts@[1]@);
            }
            let n = match parse_dec_micro(parts[0].as_str()) {
                Some(v) => v,
                None => {
                    return String::new();
                },
            };
            let d = match parse_dec_micro(parts[1].as_str()) {
                Some(v) => v,
                None => {
                    return String::new();
                },
            };
            if d == 0 {
                return String::new();
            }
            let h = div_round_half_up(n as u128 * 100, d as u128);
            let mut out = String::new();
            push_two_dec(h, &mut out);
            proof {
                assert(out@ =~= spec_fps_field(rate.deep_view()));
            }
            out
        },
    }
}

/// The bitrate column: a container-level bits-per-second count
/// rendered in Mbps with two decimal places; empty when absent or
/// unparseable.
pub open spec fn spec_bitrate_field(bit_rate: Option<Seq<char>>) -> Seq<char> {
    match bit_rate {
        Option::None => Seq::empty(),
        Option::Some(b) => {
            if is_dec(b) {
                two_dec_rep(rhu(dec_micro_clamped(b), 10000000000)) + seq![
                    ' ',
                    'M',
                    'b',
                    'p',
                    's',
                ]
            } else {
                Seq::empty()
            }
        },
    }
}

/// Renders the container bit rate, if any, in Mbps.
pub fn bitrate_field(bit_rate: Option<&str>) -> (r: String)
    ensures
        r@ == spec_bitrate_field(bit_rate.deep_view()),
{
    match bit_rate {
        None => String::new(),
        Some(b) => {
            match parse_dec_micro(b) {
                None => String::new(),
                Some(micro) => {
                    let h = div_round_half_up(micro as u128, 10_000_000_000);
                    let mut out = String::new();
                    push_two_dec(h, &mut out);
                    push_char(&mut out, ' ');
                    push_char(&mut out, 'M');
                    push_char(&mut out, 'b');
                    push_char(&mut out, 'p');
                    push_char(&mut out, 's');
                    proof {
                        assert(out@ =~= spec_bitrate_field(bit_rate.deep_view()));
                    }
                    out
                },
            }
        },
    }
}

/// The bit-depth column: a heuristic on the pixel-format name.
pub open spec fn spec_bit_depth(pix_fmt: Option<Seq<char>>) -> Seq<char> {
    match pix_fmt {
        Option::Some(f) => {
            if contains_sub(f, seq!['p', '1', '0']) {
                seq!['1', '0', 'b', 'i', 't']
            } else if contains_sub(f, seq!['p', '1', '2']) {
                seq!['1', '2', 'b', 'i', 't']
            } else {
                seq!['8', 'b', 'i', 't']
            }
        },
        Option::None => seq!['8', 'b', 'i', 't'],
    }
}

/// Classifies a pixel format as 10-, 12- or 8-bit by name.
pub fn get_bit_depth(pix_fmt: Option<&str>) -> (r: String)
    ensures
        r@ == spec_bit_depth(pix_fmt.deep_view()),
{
    proof {
        reveal_strlit("p10");
        reveal_strlit("p12");
        reveal_strlit("10bit");
        reveal_strlit("12bit");
        reveal_strlit("8bit");
        assert("p10"@ =~= seq!['p', '1', '0']);
        assert("p12"@ =~= seq!['p', '1', '2']);
        assert("10bit"@ =~= seq!['1', '0', 'b', 'i', 't']);
        assert("12bit"@ =~= seq!['1', '2', 'b', 'i', 't']);
        assert("8bit"@ =~= seq!['8', 'b', 'i', 't']);
    }
    match pix_fmt {
        Some(f) => {
            if contains_str(f, "p10") {
                String::from_str("10bit")
            } else if contains_str(f, "p12") {
                String::from_str("12bit")
            } else {
                String::from_str("8bit")
            }
        },
        None => String::from_str("8bit"),
    }
}

/// The audio column: `<channels>CH`, with a ` <kbps>k` suffix when a
/// stream bit rate is present and parseable.
pub open spec fn spec_audio_field(audio: Option<StreamV>) -> Seq<char> {
    match audio {
        Option::None => Seq::empty(),
        Option::Some(a) => {
            let ch: int = match a.channels {
                Option::Some(c) => c as int,
                Option::None => 0,
            };
            let suffix: Seq<char> = match a.bit_rate {
                Option::Some(b) => {
                    if is_dec(b) {
                        seq![' '] + dec_rep(rhu(dec_micro_clamped(b), 1000000000)) + seq!['k']
                    } else {
                        Seq::empty()
                    }
                },
                Option::None => Seq::empty(),
            };
            int_rep(ch) + seq!['C', 'H'] + suffix
        },
    }
}

/// Renders the audio summary of an audio stream, if any.
pub fn audio_field(audio: Option<&Stream>) -> (r: String)
    ensures
        r@ == spec_audio_field(audio.deep_view()),
{
    match audio {
        None => String::new(),
        Some(a) => {
            let mut out = String::new();
            let ch: i32 = match a.channels {
                Some(c) => c,
                None => 0,
            };
            push_dec_i32(ch, &mut out);
            push_char(&mut out, 'C');
            push_char(&mut out, 'H');
            match &a.bit_rate {
                Some(b) => {
                    match parse_dec_micro(b.as_str()) {
                        Some(micro) => {
                            let k = div_round_half_up(micro as u128, 1_000_000_000);
                            push_char(&mut out, ' ');
                            crate::num::push_dec_u128(k, &mut out);
                            push_char(&mut out, 'k');
                        },
                        None => {},
                    }
                },
                None => {},
            }
            proof {
                assert(out@ =~= spec_audio_field(audio.deep_view()));
            }
            out
        },
    }
}

/// The resolution column: `<width>x<height>`, each dimension zero
/// when absent.
pub open spec fn spec_resolution_field(v: StreamV) -> Seq<char> {
    let w: int = match v.width {
        Option::Some(x) => x as int,
        Option::None => 0,
    };
    let h: int = match v.height {
        Option::Some(x) => x as int,
        Option::None => 0,
    };
    int_rep(w) + seq!['x'] + int_rep(h)
}

/// Renders the resolution of a video stream.
pub fn resolution_field(v: &Stream) -> (r: String)
    ensures
        r@ == spec_resolution_field(v@),
{
    let mut out = String::new();
    let w: i32 = match v.width {
        Some(x) => x,
        None => 0,
    };
    let h: i32 = match v.height {
        Some(x) => x,
        None => 0,
    };
    push_dec_i32(w, &mut out);
    push_char(&mut out, 'x');
    push_dec_i32(h, &mut out);
    proof {
        assert(out@ =~= spec_resolution_field(v@));
    }
    out
}

/// A string shortened to `max_len` characters by replacing its middle
/// with an ellipsis, the prefix and suffix sharing the room equally;
/// an odd remainder goes to the prefix.
pub open spec fn spec_truncate_middle(s: Seq<char>, max_len: int) -> Seq<char> {
    if s.len() <= max_len {
        s
    } else {
        let side = (max_len - 3) / 2;
        let lead = max_len - 3 - side;
        s.take(lead) + seq!['.', '.', '.'] + s.skip(s.len() - side)
    }
}

/// Shortens a string for display, keeping its ends.
pub fn truncate_middle(s: &str, max_len: usize) -> (r: String)
    requires
        s@.len() <= max_len || max_len >= 3,
    ensures
        r@ == spec_truncate_middle(s@, max_len as int),
{
    let n = s.unicode_len();
    if n <= max_len {
        return s.to_owned();
    }
    let side = (max_len - 3) / 2;
    let lead = max_len - 3 - side;
    let left = s.substring_char(0, lead);
    let right = s.substring_char(n - side, n);
    let mut out = left.to_owned();
    out.append("...");
    out.append(right);
    proof {
        reveal_strlit("...");
        assert("..."@ =~= seq!['.', '.', '.']);
        assert(out@ =~= spec_truncate_middle(s@, max_len as int));
    }
    out
}

/// The first stream whose codec type is `t`, in prober emission
/// order; later streams of the same type are never consulted.
pub open spec fn first_of_type(streams: Seq<StreamV>, t: Seq<char>) -> Option<StreamV>
    decreases streams.len(),
{
    if streams.len() == 0 {
        None
    } else if streams[0].codec_type == t {
        Some(streams[0])
    } else {
        first_of_type(streams.drop_first(), t)
    }
}

proof fn lemma_first_of_type_at(s: Seq<StreamV>, t: Seq<char>, p: int)
    requires
        0 <= p <= s.len(),
        forall|k: int| 0 <= k < p ==> #[trigger] s[k].codec_type != t,
        p < s.len() ==> s[p].codec_type == t,
    ensures
        first_of_type(s, t) == if p == s.len() {
            None::<StreamV>
        } else {
            Some(s[p])
        },
    decreases s.len(),
{
    if s.len() > 0 && p > 0 {
        assert(s[0].codec_type != t);
        assert forall|k: int| 0 <= k < p - 1 implies #[trigger] s.drop_first()[k].codec_type
            != t by {
            assert(s.drop_first()[k] == s[k + 1]);
        }
        assert(p - 1 < s.drop_first().len() ==> s.drop_first()[p - 1].codec_type == t);
        lemma_first_of_type_at(s.drop_first(), t, p - 1);
        if p < s.len() {
            assert(s.drop_first()[p - 1] == s[p]);
        }
    }
}

/// Finds the first stream of codec type `t`.
pub fn find_stream<'a>(streams: &'a Vec<Stream>, t: &str) -> (r: Option<&'a Stream>)
    ensures
        match r {
            Some(s) => first_of_type(streams.deep_view(), t@) == Some(s@),
            None => first_of_type(streams.deep_view(), t@) is None,
        },
{
    let n = streams.len();
    let mut i: usize = 0;
    while i < n
        invariant
            i <= n,
            n == streams@.len(),
            forall|k: int| 0 <= k < i ==> #[trigger] streams.deep_view()[k].codec_type != t@,
        decreases n - i,
    {
        if str_eq(streams[i].codec_type.as_str(), t) {
            proof {
                lemma_first_of_type_at(streams.deep_view(), t@, i as int);
            }
            return Some(&streams[i]);
        }
        i += 1;
    }
    proof {
        lemma_first_of_type_at(streams.deep_view(), t@, n as int);
    }
    None
}

/// An optional string field, or the empty string when absent.
pub open spec fn opt_or_empty(o: Option<Seq<char>>) -> Seq<char> {
    match o {
        Option::Some(s) => s,
        Option::None => Seq::empty(),
    }
}

/// The ten display columns of one probed file, in order: filename,
/// size, duration, fps, bitrate, resolution, codec, profile, bit
/// depth, audio summary. Without a video stream the six video-derived
/// columns are empty; without an audio stream the audio column is.
pub open spec fn spec_extract(name: Seq<char>, probe: ProbeRecordV, max_len: int) -> Seq<
    Seq<char>,
> {
    let video = first_of_type(probe.streams, seq!['v', 'i', 'd', 'e', 'o']);
    let audio = first_of_type(probe.streams, seq!['a', 'u', 'd', 'i', 'o']);
    let base = seq![
        spec_truncate_middle(name, max_len),
        spec_format_size(probe.container.size),
        spec_format_duration(probe.container.duration),
    ];
    let vid: Seq<Seq<char>> = match video {
        Option::Some(v) => seq![
            spec_fps_field(v.r_frame_rate),
            spec_bitrate_field(probe.container.bit_rate),
            spec_resolution_field(v),
            opt_or_empty(v.codec_name),
            opt_or_empty(v.profile),
            spec_bit_depth(v.pix_fmt),
        ],
        Option::None => seq![
            Seq::empty(),
            Seq::empty(),
            Seq::empty(),
            Seq::empty(),
            Seq::empty(),
            Seq::empty(),
        ],
    };
    base + vid + seq![spec_audio_field(audio)]
}

/// Produces the ten-column display row of one probed file.
pub fn format_probe_output(file_name: &str, probe: &ProbeRecord, filename_length: usize) -> (
    fields: Vec<String>)
    requires
        file_name@.len() <= filename_length || filename_length >= 3,
    ensures
        fields.deep_view() == spec_extract(file_name@, probe@, filename_length as int),
        fields@.len() == 10,
{
    proof {
        reveal_strlit("video");
        reveal_strlit("audio");
        assert("video"@ =~= seq!['v', 'i', 'd', 'e', 'o']);
        assert("audio"@ =~= seq!['a', 'u', 'd', 'i', 'o']);
    }
    let mut fields: Vec<String> = Vec::new();
    fields.push(truncate_middle(file_name, filename_length));
    fields.push(format_size(probe.container.size.as_str()));
    fields.push(format_duration(probe.container.duration.as_str()));
    match find_stream(&probe.streams, "video") {
        Some(video) => {
            let rate: Option<&str> = match &video.r_frame_rate {
                Some(s) => Some(s.as_str()),
                None => None,
            };
            fields.push(fps_field(rate));
            let brate: Option<&str> = match &probe.container.bit_rate {
                Some(s) => Some(s.as_str()),
                None => None,
            };
            fields.push(bitrate_field(brate));
            fields.push(resolution_field(video));
            fields.push(match &video.codec_name {
                Some(s) => s.clone(),
                None => String::new(),
            });
            fields.push(match &video.profile {
                Some(s) => s.clone(),
                None => String::new(),
            });
            let pix: Option<&str> = match &video.pix_fmt {
                Some(s) => Some(s.as_str()),
                None => None,
            };
            fields.push(get_bit_depth(pix));
        },
        None => {
            fields.push(String::new());
            fields.push(String::new());
            fields.push(String::new());
            fields.push(String::new());
            fields.push(String::new());
            fields.push(String::new());
        },
    }
    let audio: Option<&Stream> = find_stream(&probe.streams, "audio");
    fields.push(audio_field(audio));
    proof {
        assert(fields.deep_view() =~= spec_extract(file_name@, probe@, filename_length as int));
    }
    fields
}

} // verus!
