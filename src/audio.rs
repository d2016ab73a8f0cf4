//! Sounds kept in memory for playback, the playback volume, and the WAV file
//! format for 16-bit mono PCM sound.

use vstd::prelude::*;
use crate::text::same_text;

verus! {

/// The sample rate of the test tone, in samples per second.
pub const TEST_SAMPLE_RATE: u32 = 44100;

/// The pitch of the test tone, in hertz.
pub const TEST_TONE_HZ: u32 = 800;

/// The number of samples of the test tone: half a second.
pub const TEST_SAMPLE_COUNT: usize = 22050;

/// `v` as two little-endian bytes.
pub open spec fn le16(v: int) -> Seq<u8> {
    seq![(v % 256) as u8, ((v / 256) % 256) as u8]
}

/// `v` as four little-endian bytes.
pub open spec fn le32(v: int) -> Seq<u8> {
    seq![
        (v % 256) as u8,
        ((v / 256) % 256) as u8,
        ((v / 65536) % 256) as u8,
        ((v / 16777216) % 256) as u8,
    ]
}

/// A sample as the unsigned 16-bit value with the same bits.
pub open spec fn sample_bits(s: i16) -> int {
    if s < 0 {
        s + 65536
    } else {
        s as int
    }
}

/// The data bytes for a run of samples.
pub open spec fn sample_bytes(s: Seq<i16>) -> Seq<u8>
    decreases s.len(),
{
    if s.len() == 0 {
        Seq::empty()
    } else {
        sample_bytes(s.drop_last()) + le16(sample_bits(s.last()))
    }
}

/// The 44-byte header of a 16-bit mono PCM WAV file of `n` samples at `rate`.
pub open spec fn wav_header(n: int, rate: int) -> Seq<u8> {
    seq![82u8, 73, 70, 70] + le32(36 + 2 * n) + seq![87u8, 65, 86, 69] + seq![102u8, 109, 116, 32]
        + le32(16) + le16(1) + le16(1) + le32(rate) + le32(2 * rate) + le16(2) + le16(16) + seq![
        100u8,
        97,
        116,
        97,
    ] + le32(2 * n)
}

/// The header's sizes fit its 32-bit fields.
pub open spec fn wav_fits(n: int, rate: int) -> bool {
    36 + 2 * n <= u32::MAX && 2 * rate <= u32::MAX
}

fn push_le16(out: &mut Vec<u8>, v: u16)
    ensures
        final(out)@ == old(out)@ + le16(v as int),
{
    out.push((v % 256) as u8);
    out.push(((v / 256) % 256) as u8);
    assert(final(out)@ =~= old(out)@ + le16(v as int));
}

fn push_le32(out: &mut Vec<u8>, v: u32)
    ensures
        final(out)@ == old(out)@ + le32(v as int),
{
    out.push((v % 256) as u8);
    out.push(((v / 256) % 256) as u8);
    out.push(((v / 65536) % 256) as u8);
    out.push(((v / 16777216) % 256) as u8);
    assert(final(out)@ =~= old(out)@ + le32(v as int));
}

fn push_bytes(out: &mut Vec<u8>, a: u8, b: u8, c: u8, d: u8)
    ensures
        final(out)@ == old(out)@ + seq![a, b, c, d],
{
    out.push(a);
    out.push(b);
    out.push(c);
    out.push(d);
    assert(final(out)@ =~= old(out)@ + seq![a, b, c, d]);
}

/// The bytes of a WAV file holding `samples`, 16-bit mono at `sample_rate`;
/// `None` when the sizes do not fit the header.
pub fn generate_test_audio(samples: &Vec<i16>, sample_rate: u32) -> (r: Option<Vec<u8>>)
    ensures
        r is Some <==> wav_fits(samples@.len() as int, sample_rate as int),
        r matches Some(b) ==> b@ == wav_header(samples@.len() as int, sample_rate as int)
            + sample_bytes(samples@),
{
    let n = samples.len();
    if n > 2147483629 || sample_rate > 2147483647 {
        return None;
    }
    let data_size: u32 = (n * 2) as u32;
    let mut out: Vec<u8> = Vec::new();
    push_bytes(&mut out, 82, 73, 70, 70);
    push_le32(&mut out, 36 + data_size);
    push_bytes(&mut out, 87, 65, 86, 69);
    push_bytes(&mut out, 102, 109, 116, 32);
    push_le32(&mut out, 16);
    push_le16(&mut out, 1);
    push_le16(&mut out, 1);
    push_le32(&mut out, sample_rate);
    push_le32(&mut out, sample_rate * 2);
    push_le16(&mut out, 2);
    push_le16(&mut out, 16);
    push_bytes(&mut out, 100, 97, 116, 97);
    push_le32(&mut out, data_size);
    let ghost header = out@;
    assert(header =~= wav_header(n as int, sample_rate as int));
    let mut i: usize = 0;
    assert(samples@.take(0) =~= Seq::<i16>::empty());
    assert(out@ =~= header + sample_bytes(samples@.take(0)));
    while i < n
        invariant
            i <= n,
            n == samples@.len(),
            out@ == header + sample_bytes(samples@.take(i as int)),
        decreases n - i,
    {
        let s = samples[i];
        let bits: u16 = if s < 0 {
            (s as i32 + 65536) as u16
        } else {
            s as u16
        };
        push_le16(&mut out, bits);
        proof {
            let t = samples@.take(i as int + 1);
            assert(t.drop_last() =~= samples@.take(i as int));
            assert(t.last() == s);
            assert(out@ =~= header + sample_bytes(t));
        }
        i = i + 1;
    }
    assert(samples@.take(n as int) =~= samples@);
    Some(out)
}

/// A sound file held in memory, by its path.
struct Sound {
    path: String,
    data: Vec<u8>,
}

/// The sounds held in memory and the playback volume.
pub struct SoundCache {
    sounds: Vec<Sound>,
    volume: u8,
}

/// The cache as plain values: (path, bytes) in the order first loaded, and
/// the volume in percent.
pub struct SoundCacheView {
    pub sounds: Seq<(Seq<char>, Seq<u8>)>,
    pub volume: nat,
}

pub open spec fn paths_unique(s: Seq<(Seq<char>, Seq<u8>)>) -> bool {
    forall|i: int, j: int| 0 <= i < j < s.len() ==> #[trigger] s[i].0 != #[trigger] s[j].0
}

pub open spec fn has_sound(s: Seq<(Seq<char>, Seq<u8>)>, path: Seq<char>) -> bool {
    exists|i: int| 0 <= i < s.len() && #[trigger] s[i].0 == path
}

pub open spec fn sound_index(s: Seq<(Seq<char>, Seq<u8>)>, path: Seq<char>) -> int {
    choose|i: int| 0 <= i < s.len() && #[trigger] s[i].0 == path
}

/// The bytes held for `path`, if any.
pub open spec fn sound_of(s: Seq<(Seq<char>, Seq<u8>)>, path: Seq<char>) -> Option<Seq<u8>> {
    if has_sound(s, path) {
        Some(s[sound_index(s, path)].1)
    } else {
        None
    }
}

/// The sounds after loading `data` for `path`: a sound already held for the
/// path is replaced in place, else the new one is appended.
pub open spec fn with_sound(s: Seq<(Seq<char>, Seq<u8>)>, path: Seq<char>, data: Seq<u8>) -> Seq<
    (Seq<char>, Seq<u8>),
> {
    if has_sound(s, path) {
        s.update(sound_index(s, path), (path, data))
    } else {
        s.push((path, data))
    }
}

/// The sounds after dropping the one for `path`, if any.
pub open spec fn without_sound(s: Seq<(Seq<char>, Seq<u8>)>, path: Seq<char>) -> Seq<
    (Seq<char>, Seq<u8>),
> {
    if has_sound(s, path) {
        s.remove(sound_index(s, path))
    } else {
        s
    }
}

proof fn lemma_sound_index(s: Seq<(Seq<char>, Seq<u8>)>, i: int)
    requires
        paths_unique(s),
        0 <= i < s.len(),
    ensures
        has_sound(s, s[i].0),
        sound_index(s, s[i].0) == i,
{
    assert(s[i].0 == s[i].0);
    let j = sound_index(s, s[i].0);
    if j < i {
        assert(s[j].0 != s[i].0);
    } else if i < j {
        assert(s[i].0 != s[j].0);
    }
}

spec fn sound_pairs(v: Seq<Sound>) -> Seq<(Seq<char>, Seq<u8>)> {
    v.map_values(|x: Sound| (x.path@, x.data@))
}

impl View for SoundCache {
    type V = SoundCacheView;

    closed spec fn view(&self) -> SoundCacheView {
        SoundCacheView { sounds: sound_pairs(self.sounds@), volume: self.volume as nat }
    }
}

impl SoundCache {
    /// The cache's invariant: one sound per path.
    pub closed spec fn wf(&self) -> bool {
        paths_unique(sound_pairs(self.sounds@))
    }

    /// An empty cache playing at `volume` percent.
    pub fn new(volume: u8) -> (r: SoundCache)
        ensures
            r.wf(),
            r@.sounds.len() == 0,
            r@.volume == volume,
    {
        let r = SoundCache { sounds: Vec::new(), volume };
        assert(sound_pairs(r.sounds@) =~= Seq::<(Seq<char>, Seq<u8>)>::empty());
        r
    }

    fn find(&self, path: &str) -> (r: Option<usize>)
        requires
            self.wf(),
        ensures
            r matches Some(i) ==> i < self@.sounds.len() && has_sound(self@.sounds, path@)
                && sound_index(self@.sounds, path@) == i,
            r is None ==> !has_sound(self@.sounds, path@),
    {
        let mut i: usize = 0;
        while i < self.sounds.len()
            invariant
                i <= self.sounds.len(),
                self.wf(),
                forall|j: int| 0 <= j < i ==> self.sounds@[j].path@ != path@,
            decreases self.sounds.len() - i,
        {
            if same_text(self.sounds[i].path.as_str(), path) {
                proof {
                    lemma_sound_index(self@.sounds, i as int);
                }
                return Some(i);
            }
            i = i + 1;
        }
        proof {
            if has_sound(self@.sounds, path@) {
                let j = choose|j: int|
                    0 <= j < self@.sounds.len() && #[trigger] self@.sounds[j].0 == path@;
                assert(self@.sounds[j].0 == self.sounds@[j].path@);
            }
        }
        None
    }

    /// Holds `data` as the sound of `path`, replacing what was held for it.
    pub fn preload_sound(&mut self, path: String, data: Vec<u8>)
        requires
            old(self).wf(),
        ensures
            final(self).wf(),
            final(self)@ == (SoundCacheView {
                sounds: with_sound(old(self)@.sounds, path@, data@),
                ..old(self)@
            }),
    {
        let ghost s = self@.sounds;
        let ghost item = (path@, data@);
        match self.find(path.as_str()) {
            Some(i) => {
                self.sounds.set(i, Sound { path, data });
                proof {
                    assert(self@.sounds =~= s.update(i as int, item));
                    assert forall|a: int, b: int| 0 <= a < b < self@.sounds.len() implies #[trigger] self@.sounds[a].0
                        != #[trigger] self@.sounds[b].0 by {
                        assert(self@.sounds[a].0 == s[a].0);
                        assert(self@.sounds[b].0 == s[b].0);
                    }
                }
            },
            None => {
                self.sounds.push(Sound { path, data });
                proof {
                    assert(self@.sounds =~= s.push(item));
                    assert forall|a: int, b: int| 0 <= a < b < self@.sounds.len() implies #[trigger] self@.sounds[a].0
                        != #[trigger] self@.sounds[b].0 by {
                        assert(self@.sounds[a] == s[a]);
                        if b < s.len() {
                            assert(self@.sounds[b] == s[b]);
                        }
                    }
                }
            },
        }
    }

    /// The bytes held for `path`, if any.
    pub fn sound(&self, path: &str) -> (r: Option<&Vec<u8>>)
        requires
            self.wf(),
        ensures
            match r {
                Some(d) => sound_of(self@.sounds, path@) == Some(d@),
                None => sound_of(self@.sounds, path@) is None,
            },
    {
        match self.find(path) {
            Some(i) => Some(&self.sounds[i].data),
            None => None,
        }
    }

    /// Drops the sound held for `path`, if any.
    pub fn unload_sound(&mut self, path: &str)
        requires
            old(self).wf(),
        ensures
            final(self).wf(),
            final(self)@ == (SoundCacheView {
                sounds: without_sound(old(self)@.sounds, path@),
                ..old(self)@
            }),
    {
        let ghost s = self@.sounds;
        match self.find(path) {
            Some(i) => {
                self.sounds.remove(i);
                proof {
                    assert(self@.sounds =~= s.remove(i as int));
                    assert forall|a: int, b: int| 0 <= a < b < self@.sounds.len() implies #[trigger] self@.sounds[a].0
                        != #[trigger] self@.sounds[b].0 by {
                        if a < i {
                            assert(self@.sounds[a] == s[a]);
                        } else {
                            assert(self@.sounds[a] == s[a + 1]);
                        }
                        if b < i {
                            assert(self@.sounds[b] == s[b]);
                        } else {
                            assert(self@.sounds[b] == s[b + 1]);
                        }
                    }
                }
            },
            None => {},
        }
    }

    /// Drops every sound.
    pub fn clear_preloaded_sounds(&mut self)
        requires
            old(self).wf(),
        ensures
            final(self).wf(),
            final(self)@.sounds.len() == 0,
            final(self)@.volume == old(self)@.volume,
    {
        self.sounds.clear();
        assert(sound_pairs(self.sounds@) =~= Seq::<(Seq<char>, Seq<u8>)>::empty());
    }

    /// The paths of the sounds held, in the order first loaded.
    pub fn get_preloaded_sounds(&self) -> (r: Vec<String>)
        requires
            self.wf(),
        ensures
            r@.map_values(|s: String| s@) == self@.sounds.map_values(
                |p: (Seq<char>, Seq<u8>)| p.0,
            ),
    {
        let mut out: Vec<String> = Vec::new();
        let mut i: usize = 0;
        while i < self.sounds.len()
            invariant
                i <= self.sounds.len(),
                out@.map_values(|s: String| s@) =~= self@.sounds.map_values(
                    |p: (Seq<char>, Seq<u8>)| p.0,
                ).take(i as int),
            decreases self.sounds.len() - i,
        {
            let ghost before = out@;
            out.push(self.sounds[i].path.clone());
            proof {
                let keys = self@.sounds.map_values(|p: (Seq<char>, Seq<u8>)| p.0);
                assert(out@.map_values(|s: String| s@) =~= before.map_values(|s: String| s@).push(
                    keys[i as int],
                ));
                assert(keys.take(i as int + 1) =~= keys.take(i as int).push(keys[i as int]));
            }
            i = i + 1;
        }
        assert(self@.sounds.map_values(|p: (Seq<char>, Seq<u8>)| p.0).take(
            self.sounds.len() as int,
        ) =~= self@.sounds.map_values(|p: (Seq<char>, Seq<u8>)| p.0));
        out
    }

    /// Sets the volume, in percent; values above 100 mean 100.
    pub fn set_global_volume(&mut self, volume: u8)
        ensures
            final(self)@ == (SoundCacheView {
                volume: if volume > 100 {
                    100
                } else {
                    volume as nat
                },
                ..old(self)@
            }),
            final(self).wf() == old(self).wf(),
    {
        self.volume = if volume > 100 {
            100
        } else {
            volume
        };
    }

    /// The volume, in percent.
    pub fn get_global_volume(&self) -> (r: u8)
        ensures
            r == self@.volume,
    {
        self.volume
    }
}

/// Loading a sound twice leaves the same cache as loading it once.
pub proof fn lemma_preload_idempotent(s: Seq<(Seq<char>, Seq<u8>)>, path: Seq<char>, data: Seq<u8>)
    requires
        paths_unique(s),
    ensures
        with_sound(with_sound(s, path, data), path, data) == with_sound(s, path, data),
        sound_of(with_sound(s, path, data), path) == Some(data),
{
    let u = with_sound(s, path, data);
    let i = if has_sound(s, path) {
        sound_index(s, path)
    } else {
        s.len() as int
    };
    assert(u[i] == (path, data));
    assert(paths_unique(u)) by {
        assert forall|a: int, b: int| 0 <= a < b < u.len() implies #[trigger] u[a].0
            != #[trigger] u[b].0 by {
            if has_sound(s, path) {
                assert(u[a].0 == s[a].0);
                assert(u[b].0 == s[b].0);
            } else {
                assert(u[a] == s[a]);
                if b < s.len() {
                    assert(u[b] == s[b]);
                }
            }
        }
    }
    lemma_sound_index(u, i);
    assert(u.update(i, (path, data)) =~= u);
}

} // verus!
