//! What a media probe reports, and the probes that are kept.
#[allow(unused_imports)]
use crate::local::opt_text;
use crate::number::{decimal_usize, parse_unsigned};
#[allow(unused_imports)]
use crate::number::{decimal, parse_nat};
use crate::order::TextIndex;
use crate::shrink_plan::MediaProbe;
use crate::text::{join3, same_text};
use crate::trusted::{is_json, json_length_at, json_number_at, json_text_at};
#[allow(unused_imports)]
use crate::trusted::{json_document, json_length, json_number, json_text};
use vstd::prelude::*;
use vstd::string::*;

verus! {

/// What a probe reports of a stream.
#[derive(Debug)]
pub struct StreamFacts {
    pub codec_type: Option<String>,
    pub codec_name: Option<String>,
    pub bit_rate: Option<String>,
    pub width: Option<u64>,
    pub height: Option<u64>,
}

/// The view of [`StreamFacts`].
#[verifier::ext_equal]
pub struct StreamView {
    pub codec_type: Option<Seq<char>>,
    pub codec_name: Option<Seq<char>>,
    pub bit_rate: Option<Seq<char>>,
    pub width: Option<u64>,
    pub height: Option<u64>,
}

impl View for StreamFacts {
    type V = StreamView;

    open spec fn view(&self) -> StreamView {
        StreamView {
            codec_type: opt_text(self.codec_type),
            codec_name: opt_text(self.codec_name),
            bit_rate: opt_text(self.bit_rate),
            width: self.width,
            height: self.height,
        }
    }
}

/// The views of a list of streams.
pub open spec fn streams_view(v: Seq<StreamFacts>) -> Seq<StreamView> {
    Seq::new(v.len(), |i: int| v[i]@)
}

/// What a probe reports of a file.
#[derive(Debug)]
pub struct ProbeFacts {
    pub bit_rate: Option<String>,
    /// The duration in seconds, as it is written.
    pub duration: Option<String>,
    pub streams: Vec<StreamFacts>,
}

/// The pointer to a field of a stream.
pub open spec fn stream_pointer(i: nat, field: Seq<char>) -> Seq<char> {
    "/streams/"@ + decimal(i) + field
}

/// What a JSON report says of its stream `i`.
pub open spec fn reported_stream(bytes: Seq<u8>, i: nat) -> StreamView {
    StreamView {
        codec_type: json_text(bytes, stream_pointer(i, "/codec_type"@)),
        codec_name: json_text(bytes, stream_pointer(i, "/codec_name"@)),
        bit_rate: json_text(bytes, stream_pointer(i, "/bit_rate"@)),
        width: json_number(bytes, stream_pointer(i, "/width"@)),
        height: json_number(bytes, stream_pointer(i, "/height"@)),
    }
}

/// What a JSON report says of its streams.
pub open spec fn reported_streams(bytes: Seq<u8>) -> Seq<StreamView> {
    Seq::new(
        match json_length(bytes, "/streams"@) {
            Some(n) => n as nat,
            None => 0,
        },
        |i: int| reported_stream(bytes, i as nat),
    )
}

/// Reads the JSON report of a probe, if it is one.
pub fn read_probe(bytes: &[u8]) -> (r: Option<ProbeFacts>)
    ensures
        r is Some <==> json_document(bytes@),
        r is Some ==> opt_text(r->0.bit_rate) == json_text(bytes@, "/format/bit_rate"@) && opt_text(
            r->0.duration,
        ) == json_text(bytes@, "/format/duration"@) && streams_view(r->0.streams@)
            == reported_streams(bytes@),
{
    if !is_json(bytes) {
        return None;
    }
    let bit_rate = json_text_at(bytes, "/format/bit_rate");
    let duration = json_text_at(bytes, "/format/duration");
    let count: usize = match json_length_at(bytes, "/streams") {
        Some(n) => n,
        None => 0,
    };
    let mut streams: Vec<StreamFacts> = Vec::new();
    let mut i: usize = 0;
    while i < count
        invariant
            i <= count,
            streams@.len() == i,
            forall|j: int|
                0 <= j < i ==> (#[trigger] streams@[j])@ == reported_stream(bytes@, j as nat),
        decreases count - i,
    {
        let number = decimal_usize(i);
        streams.push(
            StreamFacts {
                codec_type: json_text_at(bytes, &join3("/streams/", &number, "/codec_type")),
                codec_name: json_text_at(bytes, &join3("/streams/", &number, "/codec_name")),
                bit_rate: json_text_at(bytes, &join3("/streams/", &number, "/bit_rate")),
                width: json_number_at(bytes, &join3("/streams/", &number, "/width")),
                height: json_number_at(bytes, &join3("/streams/", &number, "/height")),
            },
        );
        i = i + 1;
    }
    assert(streams_view(streams@) =~= reported_streams(bytes@));
    Some(ProbeFacts { bit_rate, duration, streams })
}

/// The view of a [`MediaProbe`].
#[verifier::ext_equal]
pub struct ProbeView {
    pub codec: Seq<char>,
    pub width: u32,
    pub height: u32,
    pub bitrate: Option<u64>,
    pub duration: u64,
    pub has_audio: bool,
}

impl View for MediaProbe {
    type V = ProbeView;

    open spec fn view(&self) -> ProbeView {
        ProbeView {
            codec: self.codec@,
            width: self.width,
            height: self.height,
            bitrate: self.bitrate,
            duration: self.duration,
            has_audio: self.has_audio,
        }
    }
}

/// Whether one of the streams is a video.
pub open spec fn has_video(streams: Seq<StreamView>) -> bool {
    exists|i: int| 0 <= i < streams.len() && is_video(#[trigger] streams[i])
}

/// Whether a stream is a video.
pub open spec fn is_video(s: StreamView) -> bool {
    s.codec_type == Some("video"@)
}

/// Whether a stream is audio.
pub open spec fn is_audio(s: StreamView) -> bool {
    s.codec_type == Some("audio"@)
}

/// The bitrate that a text writes.
pub open spec fn bps_of(text: Option<Seq<char>>) -> Option<u64> {
    match text {
        Some(t) => match parse_nat(t, u64::MAX as nat) {
            Some(n) => Some(n as u64),
            None => None,
        },
        None => None,
    }
}

/// A text, or the empty one.
pub open spec fn text_or_none(t: Option<Seq<char>>) -> Seq<char> {
    match t {
        Some(s) => s,
        None => ""@,
    }
}

/// A size as 32 bits, or zero.
pub open spec fn size_32(n: Option<u64>) -> u32 {
    match n {
        Some(v) => (v % 0x1_0000_0000) as u32,
        None => 0,
    }
}

/// The probe that the streams make of an empty one with the bitrate and the
/// duration of the file. The first video gives codec and size. The audio
/// streams before it give the codec of a file without one, and a bitrate that
/// beats that of the file; the last one counts.
pub open spec fn probe_of(bitrate: Option<u64>, duration: u64, streams: Seq<StreamView>) -> ProbeView
    decreases streams.len(),
{
    if streams.len() == 0 {
        ProbeView { codec: ""@, width: 0, height: 0, bitrate, duration, has_audio: false }
    } else {
        let init = streams.drop_last();
        let s = streams.last();
        let p = probe_of(bitrate, duration, init);
        if is_audio(s) {
            if has_video(init) {
                ProbeView { has_audio: true, ..p }
            } else {
                ProbeView {
                    has_audio: true,
                    codec: text_or_none(s.codec_name),
                    bitrate: match bps_of(s.bit_rate) {
                        Some(b) => Some(b),
                        None => p.bitrate,
                    },
                    ..p
                }
            }
        } else if is_video(s) && !has_video(init) {
            ProbeView {
                codec: text_or_none(s.codec_name),
                width: size_32(s.width),
                height: size_32(s.height),
                ..p
            }
        } else {
            p
        }
    }
}

/// The bitrate that a text writes.
fn bps(text: &Option<String>) -> (r: Option<u64>)
    ensures
        r == bps_of(opt_text(*text)),
{
    match text {
        Some(t) => parse_unsigned(t, u64::MAX),
        None => None,
    }
}

fn text_or_empty(t: &Option<String>) -> (r: String)
    ensures
        r@ == text_or_none(opt_text(*t)),
{
    match t {
        Some(s) => s.clone(),
        None => "".to_owned(),
    }
}

fn size(n: Option<u64>) -> (r: u32)
    ensures
        r == size_32(n),
{
    match n {
        Some(v) => (v % 0x1_0000_0000) as u32,
        None => 0,
    }
}

fn is_type(s: &StreamFacts, wanted: &str) -> (r: bool)
    ensures
        r == (s@.codec_type == Some(wanted@)),
{
    match &s.codec_type {
        Some(t) => same_text(t, wanted),
        None => false,
    }
}

/// The probe that a report gives, where `duration` is its duration as the bits
/// of a double.
pub fn media_probe(facts: &ProbeFacts, duration: u64) -> (r: MediaProbe)
    ensures
        r@ == probe_of(bps_of(opt_text(facts.bit_rate)), duration, streams_view(facts.streams@)),
{
    let ghost all = streams_view(facts.streams@);
    let ghost start = bps_of(opt_text(facts.bit_rate));
    let mut probe = MediaProbe {
        codec: "".to_owned(),
        width: 0,
        height: 0,
        bitrate: bps(&facts.bit_rate),
        duration,
        has_audio: false,
    };
    let mut primary = true;
    let mut i: usize = 0;
    assert(all.take(0) =~= seq![]);
    while i < facts.streams.len()
        invariant
            i <= facts.streams@.len(),
            all == streams_view(facts.streams@),
            start == bps_of(opt_text(facts.bit_rate)),
            primary == !has_video(all.take(i as int)),
            probe@ == probe_of(start, duration, all.take(i as int)),
        decreases facts.streams@.len() - i,
    {
        let s = &facts.streams[i];
        let ghost here = all.take(i as int + 1);
        proof {
            assert(here.drop_last() =~= all.take(i as int));
            assert(here.last() == s@);
            lemma_has_video(here);
            reveal_strlit("audio");
            reveal_strlit("video");
            assert("audio"@[0] != "video"@[0]);
        }
        if is_type(s, "audio") {
            probe.has_audio = true;
            if primary {
                probe.codec = text_or_empty(&s.codec_name);
                if let Some(b) = bps(&s.bit_rate) {
                    probe.bitrate = Some(b);
                }
            }
        }
        if primary && is_type(s, "video") {
            probe.codec = text_or_empty(&s.codec_name);
            probe.width = size(s.width);
            probe.height = size(s.height);
            primary = false;
        }
        i = i + 1;
    }
    assert(all.take(i as int) =~= all);
    probe
}

proof fn lemma_has_video(streams: Seq<StreamView>)
    requires
        streams.len() > 0,
    ensures
        has_video(streams) == (has_video(streams.drop_last()) || is_video(streams.last())),
{
    let init = streams.drop_last();
    if has_video(init) {
        let i = choose|i: int| 0 <= i < init.len() && is_video(#[trigger] init[i]);
        assert(is_video(streams[i]));
    }
    if has_video(streams) {
        let i = choose|i: int| 0 <= i < streams.len() && is_video(#[trigger] streams[i]);
        if i < init.len() {
            assert(is_video(init[i]));
        }
    }
    if is_video(streams.last()) {
        assert(is_video(streams[streams.len() - 1]));
    }
}

/// A probe that is kept, with the size and the time of the file it is of.
#[derive(Debug)]
pub struct ProbeEntry {
    pub len: u64,
    pub mtime: u64,
    pub probe: MediaProbe,
}

/// The probes of files, by path. A probe counts as long as the file has the
/// same size and time.
#[derive(Debug)]
pub struct ProbeCache {
    pub entries: Vec<ProbeEntry>,
    pub index: TextIndex,
}

impl View for ProbeCache {
    type V = Map<Seq<char>, (u64, u64, ProbeView)>;

    open spec fn view(&self) -> Map<Seq<char>, (u64, u64, ProbeView)> {
        Map::new(
            |k: Seq<char>| self.index@.contains_key(k),
            |k: Seq<char>|
                {
                    let e = self.entries@[self.index@[k]];
                    (e.len, e.mtime, e.probe@)
                },
        )
    }
}

/// A copy of a probe.
pub fn copy_probe(p: &MediaProbe) -> (r: MediaProbe)
    ensures
        r == *p,
{
    MediaProbe {
        codec: p.codec.clone(),
        width: p.width,
        height: p.height,
        bitrate: p.bitrate,
        duration: p.duration,
        has_audio: p.has_audio,
    }
}

impl ProbeCache {
    /// Every path has a probe of its own.
    pub open spec fn wf(self) -> bool {
        &&& self.index.wf()
        &&& forall|k: Seq<char>| #[trigger]
            self.index@.contains_key(k) ==> 0 <= self.index@[k] < self.entries@.len()
        &&& forall|j: Seq<char>, k: Seq<char>|
            self.index@.contains_key(j) && self.index@.contains_key(k) && j != k
                ==> #[trigger] self.index@[j] != #[trigger] self.index@[k]
    }

    /// No probes.
    pub fn new() -> (r: Self)
        ensures
            r.wf(),
            r@ == Map::<Seq<char>, (u64, u64, ProbeView)>::empty(),
    {
        let r = ProbeCache { entries: Vec::new(), index: TextIndex::new() };
        assert(r@ =~= Map::empty());
        r
    }

    /// The probe that is kept of a file, if the file still has the same size
    /// and time.
    pub fn cached_probe(&self, path: &str, len: u64, mtime: u64) -> (r: Option<MediaProbe>)
        requires
            self.wf(),
        ensures
            r is Some <==> known_probe(self@, path@, len, mtime) is Some,
            r is Some ==> r->0@ == known_probe(self@, path@, len, mtime)->0,
    {
        match self.index.get(path) {
            Some(i) => {
                let e = &self.entries[i];
                assert(self@[path@] == (e.len, e.mtime, e.probe@));
                if e.len == len && e.mtime == mtime {
                    Some(copy_probe(&e.probe))
                } else {
                    None
                }
            },
            None => None,
        }
    }

    /// Keeps a probe of a file, in place of an earlier one.
    pub fn keep(&mut self, path: &str, len: u64, mtime: u64, probe: &MediaProbe)
        requires
            old(self).wf(),
        ensures
            final(self).wf(),
            final(self)@ == old(self)@.insert(path@, (len, mtime, probe@)),
    {
        let entry = ProbeEntry { len, mtime, probe: copy_probe(probe) };
        match self.index.get(path) {
            Some(i) => {
                self.entries.set(i, entry);
            },
            None => {
                let i: usize = self.entries.len();
                self.entries.push(entry);
                self.index.insert(path.to_owned(), i);
            },
        }
        proof {
            assert forall|k: Seq<char>| #[trigger] self@.contains_key(k) implies self@[k] == old(
                self,
            )@.insert(path@, (len, mtime, probe@))[k] by {
                if k != path@ {
                    assert(old(self).index@.contains_key(k));
                    let e = old(self).entries@[old(self).index@[k]];
                    assert(old(self)@[k] == (e.len, e.mtime, e.probe@));
                }
            }
            assert(self@ =~= old(self)@.insert(path@, (len, mtime, probe@)));
        }
    }
}

/// The first video stream of a file says its codec and its size, whatever streams
/// stand before or behind it; every audio stream says that there is sound, and
/// without a video the last one says the codec and, where it can, the rate.
/// Streams of other kinds say nothing.
pub proof fn law_streams(
    bitrate: Option<u64>,
    duration: u64,
    streams: Seq<StreamView>,
    s: StreamView,
)
    ensures
        ({
            let before = probe_of(bitrate, duration, streams);
            let now = probe_of(bitrate, duration, streams.push(s));
            let video = s.codec_type == Some("video"@);
            let audio = s.codec_type == Some("audio"@);
            &&& now.duration == before.duration && before.duration == duration
            &&& !video && !audio ==> now == before
            &&& video && has_video(streams) ==> now == before
            &&& video && !has_video(streams) ==> now.codec == text_or_none(s.codec_name) && now.width
                == size_32(s.width) && now.height == size_32(s.height) && now.has_audio
                == before.has_audio && now.bitrate == before.bitrate
            &&& audio ==> now.has_audio && now.width == before.width && now.height == before.height
            &&& audio && has_video(streams) ==> now.codec == before.codec && now.bitrate
                == before.bitrate
            &&& audio && !has_video(streams) ==> now.codec == text_or_none(s.codec_name)
            &&& audio && !has_video(streams) && bps_of(s.bit_rate) is Some ==> now.bitrate == bps_of(
                s.bit_rate,
            )
            &&& audio && !has_video(streams) && bps_of(s.bit_rate) is None ==> now.bitrate
                == before.bitrate
            &&& has_video(streams.push(s)) <==> has_video(streams) || video
        }),
        ({
            let none = probe_of(bitrate, duration, seq![]);
            none.bitrate == bitrate && !none.has_audio && none.width == 0 && none.height == 0
        }),
{
    let all = streams.push(s);
    lemma_duration(bitrate, duration, streams);
    assert(all.drop_last() =~= streams);
    reveal_strlit("video");
    reveal_strlit("audio");
    assert("video"@[0] == 'v' && "audio"@[0] == 'a');
    if has_video(streams) {
        let i = choose|i: int| 0 <= i < streams.len() && is_video(#[trigger] streams[i]);
        assert(is_video(all[i]));
    }
    if is_video(s) {
        assert(is_video(all[streams.len() as int]));
    }
    if has_video(all) {
        let i = choose|i: int| 0 <= i < all.len() && is_video(#[trigger] all[i]);
        if i < streams.len() {
            assert(is_video(streams[i]));
        }
    }
}

proof fn lemma_duration(bitrate: Option<u64>, duration: u64, streams: Seq<StreamView>)
    ensures
        probe_of(bitrate, duration, streams).duration == duration,
    decreases streams.len(),
{
    if streams.len() > 0 {
        lemma_duration(bitrate, duration, streams.drop_last());
    }
}

/// A rate is the number that the text writes.
pub proof fn law_rates(n: u64)
    ensures
        bps_of(Some(decimal(n as nat))) == Some(n),
        bps_of(None) is None,
        n < 0x1_0000_0000 ==> size_32(Some(n)) == n,
        size_32(None) == 0,
{
    crate::number::law_written_numbers_are_read(n as int, 0, u64::MAX as int);
}

/// The probe that is kept of a file, if the file looks as it did then.
pub open spec fn known_probe(
    kept: Map<Seq<char>, (u64, u64, ProbeView)>,
    path: Seq<char>,
    len: u64,
    mtime: u64,
) -> Option<ProbeView> {
    if kept.contains_key(path) {
        let (l, m, probe) = kept[path];
        if l == len && m == mtime {
            Some(probe)
        } else {
            None
        }
    } else {
        None
    }
}

/// A probe that was kept is given back, as long as the file has the size and the
/// time that it had then, and no longer; those of other files stay.
pub proof fn law_kept_probes(
    kept: Map<Seq<char>, (u64, u64, ProbeView)>,
    path: Seq<char>,
    len: u64,
    mtime: u64,
    probe: ProbeView,
    other: Seq<char>,
    len2: u64,
    mtime2: u64,
)
    requires
        other != path,
    ensures
        ({
            let now = kept.insert(path, (len, mtime, probe));
            &&& known_probe(now, path, len2, mtime2) == (if len2 == len && mtime2 == mtime {
                Some(probe)
            } else {
                None
            })
            &&& known_probe(now, other, len2, mtime2) == known_probe(kept, other, len2, mtime2)
        }),
        known_probe(Map::empty(), path, len, mtime) is None,
{
}

} // verus!
