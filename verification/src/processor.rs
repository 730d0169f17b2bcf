use vstd::prelude::*;

use crate::error::AudioError;

verus! {

/// The contents of a list of channels, each channel taken by its view.
pub open spec fn grid<T>(g: Vec<Vec<T>>) -> Seq<Seq<T>> {
    g@.map_values(|c: Vec<T>| c@)
}

/// `grid`, lifted through an `Option`.
pub open spec fn opt_grid<T>(g: Option<Vec<Vec<T>>>) -> Option<Seq<Seq<T>>> {
    match g {
        Some(v) => Some(grid(v)),
        None => None,
    }
}

/// At least one channel, and all channels hold the same positive number of entries.
pub open spec fn is_rectangular<T>(d: Seq<Seq<T>>) -> bool {
    &&& d.len() >= 1
    &&& d[0].len() >= 1
    &&& forall|c: int| 0 <= c < d.len() ==> #[trigger] d[c].len() == d[0].len()
}

/// Same number of channels, and channel for channel the same number of entries.
pub open spec fn same_shape<T, U>(a: Seq<Seq<T>>, b: Seq<Seq<U>>) -> bool {
    &&& a.len() == b.len()
    &&& forall|c: int| 0 <= c < a.len() ==> #[trigger] a[c].len() == b[c].len()
}

/// The first channel at or after `c` whose length differs from channel 0's,
/// or `d.len()` when there is none.
pub open spec fn first_mismatch<T>(d: Seq<Seq<T>>, c: int) -> int
    decreases d.len() - c,
{
    if c >= d.len() {
        d.len() as int
    } else if d[c].len() != d[0].len() {
        c
    } else {
        first_mismatch(d, c + 1)
    }
}

/// What `set_audio_data` answers for the channels `d`.
pub open spec fn audio_data_check<T>(d: Seq<Seq<T>>) -> Result<(), AudioError> {
    if d.len() == 0 {
        Err(AudioError::NoAudioData)
    } else if d[0].len() == 0 {
        Err(AudioError::EmptyChannels)
    } else if first_mismatch(d, 1) < d.len() {
        Err(
            AudioError::InconsistentChannelLengths {
                first_len: d[0].len() as usize,
                channel: first_mismatch(d, 1) as usize,
                len: d[first_mismatch(d, 1)].len() as usize,
            },
        )
    } else {
        Ok(())
    }
}

/// Every channel of `d` cut or padded with `zero` to `length` entries.
pub open spec fn resized<T>(d: Seq<Seq<T>>, length: nat, zero: T) -> Seq<Seq<T>> {
    Seq::new(
        d.len(),
        |c: int| Seq::new(length, |i: int| if i < d[c].len() { d[c][i] } else { zero }),
    )
}

/// `n` is a power of two.
pub open spec fn is_power_of_two(n: nat) -> bool
    decreases n,
{
    if n == 1 {
        true
    } else if n == 0 || n % 2 == 1 {
        false
    } else {
        is_power_of_two(n / 2)
    }
}

proof fn lemma_power_of_two_bound(n: nat)
    requires
        is_power_of_two(n),
    ensures
        n >= 1,
    decreases n,
{
    if n != 1 {
        lemma_power_of_two_bound(n / 2);
    }
}

proof fn lemma_double_power_of_two(n: nat)
    requires
        is_power_of_two(n),
    ensures
        is_power_of_two(2 * n),
        2 * n / 2 == n,
{
    assert((2 * n) % 2 == 0);
    assert(2 * n / 2 == n);
}

/// Counts that describe the time-domain data.
#[derive(Debug, Clone, Copy, PartialEq, Eq, Structural)]
pub struct TimeDataInfo {
    /// Number of channels
    pub num_channels: usize,
    /// Number of samples per channel
    pub samples_per_channel: usize,
}

/// Counts that describe the frequency-domain data.
#[derive(Debug, Clone, Copy, PartialEq, Eq, Structural)]
pub struct FFTDataInfo {
    /// Number of channels
    pub num_channels: usize,
    /// Number of complex values per channel
    pub complex_values_per_channel: usize,
}

/// Information about audio data loaded in the processor.
#[derive(Debug, Clone, Copy, PartialEq, Eq, Structural)]
pub struct AudioInfo {
    /// Sample rate in Hz
    pub sample_rate: u32,
    /// Number of audio channels
    pub channels: u16,
    /// FFT size (power of 2)
    pub fft_size: usize,
    /// Information about time domain data (if available)
    pub time_data: Option<TimeDataInfo>,
    /// Information about frequency domain data (if available)
    pub fft_data: Option<FFTDataInfo>,
}

/// The core audio processing state: per-channel time samples of type `S` and,
/// after a transform, per-channel spectrum bins of type `B`.
///
/// The spectrum is held with `fft_size / 2 + 1` bins per channel, bin 0 being
/// DC and the last bin Nyquist. A second spectrum is kept aside while a split
/// part is prepared, so that the split can be undone.
#[derive(Debug)]
pub struct AudioProcessor<S, B> {
    /// Audio sample rate in Hz
    pub(crate) sample_rate: u32,
    /// Number of audio channels
    pub(crate) channels: u16,
    /// Spectrum of each channel
    pub(crate) fft_data: Option<Vec<Vec<B>>>,
    /// Spectrum kept aside while a split part is prepared
    pub(crate) tmp_fft_data: Option<Vec<Vec<B>>>,
    /// Time domain audio data for each channel
    pub(crate) time_data: Option<Vec<Vec<S>>>,
    /// FFT size (power of 2)
    pub(crate) fft_size: usize,
    /// Largest bin amplitude found by the last forward transform, used to
    /// scale the time data after the inverse transform
    pub(crate) max_amplitude: Option<S>,
}

impl<S: Copy, B: Copy> AudioProcessor<S, B> {
    /// The time-domain samples, channel by channel.
    pub closed spec fn time_view(&self) -> Option<Seq<Seq<S>>> {
        opt_grid(self.time_data)
    }

    /// The spectrum bins, channel by channel.
    pub closed spec fn spectrum_view(&self) -> Option<Seq<Seq<B>>> {
        opt_grid(self.fft_data)
    }

    /// The spectrum kept aside by a split.
    pub closed spec fn stash_view(&self) -> Option<Seq<Seq<B>>> {
        opt_grid(self.tmp_fft_data)
    }

    /// The spectrum as vectors, channel by channel.
    pub closed spec fn spectrum_vecs(&self) -> Option<Vec<Vec<B>>> {
        self.fft_data
    }

    /// The time samples as vectors, channel by channel.
    pub closed spec fn time_vecs(&self) -> Option<Vec<Vec<S>>> {
        self.time_data
    }

    pub closed spec fn spec_sample_rate(&self) -> u32 {
        self.sample_rate
    }

    pub closed spec fn spec_channels(&self) -> u16 {
        self.channels
    }

    pub closed spec fn spec_fft_size(&self) -> usize {
        self.fft_size
    }

    pub closed spec fn spec_max_amplitude(&self) -> Option<S> {
        self.max_amplitude
    }

    /// The processor's shape invariant: whatever it holds is rectangular.
    pub open spec fn wf(&self) -> bool {
        &&& (self.time_view() matches Some(t) ==> is_rectangular(t))
        &&& (self.spectrum_view() matches Some(f) ==> is_rectangular(f))
        &&& (self.stash_view() matches Some(f) ==> is_rectangular(f))
    }

    /// The views are the fields.
    pub(crate) proof fn lemma_views(&self)
        ensures
            self.time_view() == opt_grid(self.time_data),
            self.spectrum_view() == opt_grid(self.fft_data),
            self.stash_view() == opt_grid(self.tmp_fft_data),
            self.spectrum_vecs() == self.fft_data,
            self.time_vecs() == self.time_data,
            self.spec_sample_rate() == self.sample_rate,
            self.spec_channels() == self.channels,
            self.spec_fft_size() == self.fft_size,
            self.spec_max_amplitude() == self.max_amplitude,
    {
    }

    /// Create a new, empty `AudioProcessor`.
    pub fn new() -> (r: Self)
        ensures
            r.wf(),
            r.time_view() is None,
            r.spectrum_view() is None,
            r.stash_view() is None,
            r.sample_rate() == 0,
            r.channels() == 0,
            r.fft_size() == 0,
            r.spec_max_amplitude() is None,
    {
        AudioProcessor {
            sample_rate: 0,
            channels: 0,
            fft_data: None,
            tmp_fft_data: None,
            time_data: None,
            fft_size: 0,
            max_amplitude: None,
        }
    }

    /// Get the current sample rate.
    #[verifier::when_used_as_spec(spec_sample_rate)]
    pub fn sample_rate(&self) -> (r: u32)
        ensures
            r == self.spec_sample_rate(),
    {
        self.sample_rate
    }

    /// Get the number of channels.
    #[verifier::when_used_as_spec(spec_channels)]
    pub fn channels(&self) -> (r: u16)
        ensures
            r == self.spec_channels(),
    {
        self.channels
    }

    /// Get the FFT size.
    #[verifier::when_used_as_spec(spec_fft_size)]
    pub fn fft_size(&self) -> (r: usize)
        ensures
            r == self.spec_fft_size(),
    {
        self.fft_size
    }

    /// The largest bin amplitude found by the last forward transform, if any.
    pub fn max_amplitude(&self) -> (r: Option<S>)
        ensures
            r == self.spec_max_amplitude(),
    {
        self.max_amplitude
    }

    /// Check if time domain data is available.
    pub fn has_time_data(&self) -> (r: bool)
        ensures
            r == self.time_view() is Some,
    {
        self.time_data.is_some()
    }

    /// Check if frequency domain data is available.
    pub fn has_frequency_data(&self) -> (r: bool)
        ensures
            r == self.spectrum_view() is Some,
    {
        self.fft_data.is_some()
    }

    /// Get a reference to the time domain data.
    pub fn time_data(&self) -> (r: Option<&Vec<Vec<S>>>)
        ensures
            r is None <==> self.time_view() is None,
            r matches Some(t) ==> self.time_view() == Some(grid(*t)),
    {
        self.time_data.as_ref()
    }

    /// Get a reference to the spectrum.
    pub fn fft_data(&self) -> (r: Option<&Vec<Vec<B>>>)
        ensures
            r is None <==> self.spectrum_view() is None,
            r matches Some(f) ==> self.spectrum_view() == Some(grid(*f)) && self.spectrum_vecs()
                == Some(*f),
    {
        self.fft_data.as_ref()
    }

    /// Check channels for `set_audio_data`.
    fn check_audio_data(time_data: &Vec<Vec<S>>) -> (r: Result<(), AudioError>)
        ensures
            r == audio_data_check(grid(*time_data)),
    {
        let ghost d = grid(*time_data);
        if time_data.len() == 0 {
            return Err(AudioError::NoAudioData);
        }
        assert(d[0] == time_data@[0]@);
        if time_data[0].len() == 0 {
            return Err(AudioError::EmptyChannels);
        }
        let first_len = time_data[0].len();
        let mut i: usize = 1;
        while i < time_data.len()
            invariant
                1 <= i <= time_data.len(),
                d == grid(*time_data),
                first_len == d[0].len(),
                first_len >= 1,
                d.len() == time_data.len(),
                first_mismatch(d, 1) == first_mismatch(d, i as int),
            decreases time_data.len() - i,
        {
            assert(d[i as int] == time_data@[i as int]@);
            if time_data[i].len() != first_len {
                assert(first_mismatch(d, i as int) == i);
                assert(d.len() == time_data.len());
                return Err(
                    AudioError::InconsistentChannelLengths {
                        first_len,
                        channel: i,
                        len: time_data[i].len(),
                    },
                );
            }
            i = i + 1;
        }
        assert(first_mismatch(d, i as int) == d.len());
        Ok(())
    }

    /// Set audio parameters and time domain data.
    ///
    /// The channels must be non-empty and of one length; the spectrum is
    /// cleared, since it no longer belongs to the samples.
    pub fn set_audio_data(&mut self, sample_rate: u32, channels: u16, time_data: Vec<Vec<S>>) -> (r:
        Result<(), AudioError>)
        requires
            old(self).wf(),
        ensures
            final(self).wf(),
            r == audio_data_check(grid(time_data)),
            r is Ok ==> {
                &&& final(self).time_view() == Some(grid(time_data))
                &&& final(self).spectrum_view() is None
                &&& final(self).sample_rate() == sample_rate
                &&& final(self).channels() == channels
                &&& final(self).stash_view() == old(self).stash_view()
                &&& final(self).fft_size() == old(self).fft_size()
                &&& final(self).spec_max_amplitude() == old(self).spec_max_amplitude()
            },
            r is Err ==> *final(self) == *old(self),
    {
        let check = Self::check_audio_data(&time_data);
        if check.is_err() {
            return check;
        }
        proof {
            let d = grid(time_data);
            assert(first_mismatch(d, 1) >= d.len());
            Self::lemma_no_mismatch(d, 1);
        }
        self.sample_rate = sample_rate;
        self.channels = channels;
        self.time_data = Some(time_data);
        self.fft_data = None;
        Ok(())
    }

    /// Replace every bin of the spectrum by what `f` makes of it: bin `i` of
    /// a channel becomes `f(channel, i)`, computed from the channel as it was.
    pub fn map_spectrum<F: Fn(&Vec<B>, usize) -> B>(&mut self, f: F) -> (r: Result<(), AudioError>)
        requires
            old(self).wf(),
            forall|ch: &Vec<B>, i: usize| i < ch@.len() ==> f.requires((ch, i)),
        ensures
            final(self).wf(),
            old(self).spectrum_view() is None ==> r == Err::<(), AudioError>(AudioError::NoFftData)
                && *final(self) == *old(self),
            old(self).spectrum_view() is Some ==> {
                let old_vecs = old(self).spectrum_vecs().unwrap()@;
                let e = final(self).spectrum_view().unwrap();
                &&& r is Ok
                &&& final(self).spectrum_view() is Some
                &&& same_shape(e, old(self).spectrum_view().unwrap())
                &&& forall|c: int, i: int|
                    0 <= c < e.len() && 0 <= i < e[c].len() ==> f.ensures(
                        (&old_vecs[c], i as usize),
                        #[trigger] e[c][i],
                    )
                &&& final(self).time_view() == old(self).time_view()
                &&& final(self).stash_view() == old(self).stash_view()
                &&& final(self).sample_rate() == old(self).sample_rate()
                &&& final(self).channels() == old(self).channels()
                &&& final(self).fft_size() == old(self).fft_size()
                &&& final(self).spec_max_amplitude() == old(self).spec_max_amplitude()
            },
    {
        proof {
            self.lemma_views();
        }
        match &self.fft_data {
            None => Err(AudioError::NoFftData),
            Some(data) => {
                let ghost d = grid(*data);
                let num_channels = data.len();
                let mut new_data: Vec<Vec<B>> = Vec::new();
                let mut c: usize = 0;
                while c < num_channels
                    invariant
                        d == grid(*data),
                        is_rectangular(d),
                        num_channels == d.len(),
                        c <= num_channels,
                        new_data@.len() == c,
                        forall|ch: &Vec<B>, i: usize| i < ch@.len() ==> f.requires((ch, i)),
                        forall|k: int|
                            0 <= k < c ==> (#[trigger] new_data@[k])@.len() == d[k].len(),
                        forall|k: int, i: int|
                            0 <= k < c && 0 <= i < d[k].len() ==> f.ensures(
                                (&data@[k], i as usize),
                                #[trigger] new_data@[k]@[i],
                            ),
                    decreases num_channels - c,
                {
                    let channel = &data[c];
                    assert(channel@ == d[c as int]);
                    let len = channel.len();
                    let mut new_channel: Vec<B> = Vec::new();
                    let mut i: usize = 0;
                    while i < len
                        invariant
                            len == channel@.len(),
                            i <= len,
                            new_channel@.len() == i,
                            forall|ch: &Vec<B>, i: usize| i < ch@.len() ==> f.requires((ch, i)),
                            forall|j: int|
                                0 <= j < i ==> f.ensures((channel, j as usize), #[trigger] new_channel@[j]),
                        decreases len - i,
                    {
                        let value = f(channel, i);
                        new_channel.push(value);
                        i = i + 1;
                    }
                    new_data.push(new_channel);
                    c = c + 1;
                }
                self.fft_data = Some(new_data);
                proof {
                    self.lemma_views();
                    assert(same_shape(grid(new_data), d));
                }
                Ok(())
            },
        }
    }

    /// Replace every time sample by what `f` makes of it.
    pub fn map_time_data<F: Fn(S) -> S>(&mut self, f: F) -> (r: Result<(), AudioError>)
        requires
            old(self).wf(),
            forall|x: S| f.requires((x,)),
        ensures
            final(self).wf(),
            old(self).time_view() is None ==> r == Err::<(), AudioError>(AudioError::NoTimeData)
                && *final(self) == *old(self),
            old(self).time_view() is Some ==> {
                let d = old(self).time_view().unwrap();
                let e = final(self).time_view().unwrap();
                &&& r is Ok
                &&& final(self).time_view() is Some
                &&& same_shape(e, d)
                &&& forall|c: int, i: int|
                    0 <= c < e.len() && 0 <= i < e[c].len() ==> f.ensures((d[c][i],), #[trigger] e[c][i])
                &&& final(self).spectrum_view() == old(self).spectrum_view()
                &&& final(self).stash_view() == old(self).stash_view()
                &&& final(self).sample_rate() == old(self).sample_rate()
                &&& final(self).channels() == old(self).channels()
                &&& final(self).fft_size() == old(self).fft_size()
                &&& final(self).spec_max_amplitude() == old(self).spec_max_amplitude()
            },
    {
        proof {
            self.lemma_views();
        }
        match &self.time_data {
            None => Err(AudioError::NoTimeData),
            Some(data) => {
                let ghost d = grid(*data);
                let num_channels = data.len();
                let mut new_data: Vec<Vec<S>> = Vec::new();
                let mut c: usize = 0;
                while c < num_channels
                    invariant
                        d == grid(*data),
                        is_rectangular(d),
                        num_channels == d.len(),
                        c <= num_channels,
                        new_data@.len() == c,
                        forall|x: S| f.requires((x,)),
                        forall|k: int|
                            0 <= k < c ==> (#[trigger] new_data@[k])@.len() == d[k].len(),
                        forall|k: int, i: int|
                            0 <= k < c && 0 <= i < d[k].len() ==> f.ensures(
                                (d[k][i],),
                                #[trigger] new_data@[k]@[i],
                            ),
                    decreases num_channels - c,
                {
                    let channel = &data[c];
                    assert(channel@ == d[c as int]);
                    let len = channel.len();
                    let mut new_channel: Vec<S> = Vec::new();
                    let mut i: usize = 0;
                    while i < len
                        invariant
                            len == channel@.len(),
                            i <= len,
                            new_channel@.len() == i,
                            forall|x: S| f.requires((x,)),
                            forall|j: int|
                                0 <= j < i ==> f.ensures((channel@[j],), #[trigger] new_channel@[j]),
                        decreases len - i,
                    {
                        let value = f(channel[i]);
                        new_channel.push(value);
                        i = i + 1;
                    }
                    new_data.push(new_channel);
                    c = c + 1;
                }
                self.time_data = Some(new_data);
                proof {
                    self.lemma_views();
                    assert(same_shape(grid(new_data), d));
                }
                Ok(())
            },
        }
    }

    /// The FFT size for `len` samples: the smallest power of two that is at
    /// least `len`.
    pub fn fft_size_for(len: usize) -> (r: usize)
        requires
            len <= usize::MAX / 2 + 1,
        ensures
            is_power_of_two(r as nat),
            r >= len,
            r == 1 || r / 2 < len,
    {
        let mut fft_size: usize = 1;
        while fft_size < len
            invariant
                is_power_of_two(fft_size as nat),
                len <= usize::MAX / 2 + 1,
                fft_size == 1 || fft_size / 2 < len,
            decreases usize::MAX - fft_size,
        {
            proof {
                lemma_double_power_of_two(fft_size as nat);
                lemma_power_of_two_bound(fft_size as nat);
            }
            fft_size = fft_size * 2;
        }
        fft_size
    }

    /// A copy of `channel` cut or padded with `zero` to `length` entries.
    fn resized_channel(channel: &Vec<S>, length: usize, zero: S) -> (r: Vec<S>)
        ensures
            r@ == Seq::new(
                length as nat,
                |i: int| if i < channel@.len() { channel@[i] } else { zero },
            ),
    {
        let mut out: Vec<S> = Vec::new();
        let mut i: usize = 0;
        while i < length
            invariant
                i <= length,
                out@.len() == i,
                forall|j: int|
                    0 <= j < i ==> #[trigger] out@[j] == if j < channel@.len() {
                        channel@[j]
                    } else {
                        zero
                    },
            decreases length - i,
        {
            if i < channel.len() {
                out.push(channel[i]);
            } else {
                out.push(zero);
            }
            i = i + 1;
        }
        assert(out@ =~= Seq::new(
            length as nat,
            |i: int| if i < channel@.len() { channel@[i] } else { zero },
        ));
        out
    }

    /// Every channel cut or padded with `zero` to `length` entries.
    fn resized_channels(time_data: &Vec<Vec<S>>, length: usize, zero: S) -> (r: Vec<Vec<S>>)
        ensures
            grid(r) == resized(grid(*time_data), length as nat, zero),
    {
        let ghost d = grid(*time_data);
        let mut out: Vec<Vec<S>> = Vec::new();
        let mut c: usize = 0;
        while c < time_data.len()
            invariant
                d == grid(*time_data),
                c <= time_data.len(),
                out@.len() == c,
                forall|k: int| 0 <= k < c ==> (#[trigger] out@[k])@ == resized(d, length as nat, zero)[k],
            decreases time_data.len() - c,
        {
            assert(time_data@[c as int]@ == d[c as int]);
            out.push(Self::resized_channel(&time_data[c], length, zero));
            c = c + 1;
        }
        assert(grid(out) =~= resized(d, length as nat, zero));
        out
    }

    /// The input of the forward transform: the FFT size for the time data,
    /// and every channel padded with `zero` to that size.
    pub fn fft_input(&self, zero: S) -> (r: Result<(usize, Vec<Vec<S>>), AudioError>)
        requires
            self.wf(),
            self.time_view() is Some ==> self.time_view().unwrap()[0].len() <= usize::MAX / 2 + 1,
        ensures
            self.time_view() is None ==> r == Err::<(usize, Vec<Vec<S>>), AudioError>(
                AudioError::NoTimeData,
            ),
            self.time_view() is Some ==> {
                let d = self.time_view().unwrap();
                &&& r is Ok
                &&& is_power_of_two(r->Ok_0.0 as nat)
                &&& r->Ok_0.0 >= d[0].len()
                &&& (r->Ok_0.0 == 1 || r->Ok_0.0 / 2 < d[0].len())
                &&& grid(r->Ok_0.1) == resized(d, r->Ok_0.0 as nat, zero)
                &&& is_rectangular(grid(r->Ok_0.1))
            },
    {
        proof {
            self.lemma_views();
        }
        match &self.time_data {
            None => Err(AudioError::NoTimeData),
            Some(data) => {
                assert(grid(*data)[0] == data@[0]@);
                let fft_size = Self::fft_size_for(data[0].len());
                let padded = Self::resized_channels(data, fft_size, zero);
                assert(is_rectangular(grid(padded))) by {
                    assert(grid(padded).len() == grid(*data).len());
                    assert forall|c: int| 0 <= c < grid(padded).len() implies #[trigger] grid(
                        padded,
                    )[c].len() == grid(padded)[0].len() by {}
                }
                Ok((fft_size, padded))
            },
        }
    }

    /// Store the result of a forward transform: the FFT size, the spectrum
    /// of every channel and the largest bin amplitude.
    pub fn store_spectrum(&mut self, fft_size: usize, spectrum: Vec<Vec<B>>, max_amplitude: S)
        requires
            old(self).wf(),
            is_rectangular(grid(spectrum)),
        ensures
            final(self).wf(),
            final(self).spectrum_view() == Some(grid(spectrum)),
            final(self).fft_size() == fft_size,
            final(self).spec_max_amplitude() == Some(max_amplitude),
            final(self).time_view() == old(self).time_view(),
            final(self).stash_view() == old(self).stash_view(),
            final(self).sample_rate() == old(self).sample_rate(),
            final(self).channels() == old(self).channels(),
    {
        proof {
            self.lemma_views();
        }
        self.fft_size = fft_size;
        self.fft_data = Some(spectrum);
        self.max_amplitude = Some(max_amplitude);
        proof {
            self.lemma_views();
        }
    }

    /// Store the result of an inverse transform as the time data.
    pub fn store_time_data(&mut self, time_data: Vec<Vec<S>>)
        requires
            old(self).wf(),
            is_rectangular(grid(time_data)),
        ensures
            final(self).wf(),
            final(self).time_view() == Some(grid(time_data)),
            final(self).spectrum_view() == old(self).spectrum_view(),
            final(self).stash_view() == old(self).stash_view(),
            final(self).sample_rate() == old(self).sample_rate(),
            final(self).channels() == old(self).channels(),
            final(self).fft_size() == old(self).fft_size(),
            final(self).spec_max_amplitude() == old(self).spec_max_amplitude(),
    {
        proof {
            self.lemma_views();
        }
        self.time_data = Some(time_data);
        proof {
            self.lemma_views();
        }
    }

    /// Set audio data as `set_audio_data` does, with every channel cut or
    /// padded with `zero` to `length` samples.
    pub fn set_audio_data_with_length(
        &mut self,
        sample_rate: u32,
        channels: u16,
        time_data: Vec<Vec<S>>,
        length: usize,
        zero: S,
    ) -> (r: Result<(), AudioError>)
        requires
            old(self).wf(),
        ensures
            final(self).wf(),
            audio_data_check(grid(time_data)) is Err ==> r == audio_data_check(grid(time_data)),
            audio_data_check(grid(time_data)) is Ok && length == 0 ==> r == Err::<(), AudioError>(
                AudioError::EmptyChannels,
            ),
            audio_data_check(grid(time_data)) is Ok && length > 0 ==> {
                &&& r is Ok
                &&& final(self).time_view() == Some(resized(grid(time_data), length as nat, zero))
                &&& final(self).spectrum_view() is None
                &&& final(self).sample_rate() == sample_rate
                &&& final(self).channels() == channels
                &&& final(self).stash_view() == old(self).stash_view()
                &&& final(self).fft_size() == old(self).fft_size()
                &&& final(self).spec_max_amplitude() == old(self).spec_max_amplitude()
            },
            r is Err ==> *final(self) == *old(self),
    {
        let check = Self::check_audio_data(&time_data);
        if check.is_err() {
            return check;
        }
        if length == 0 {
            return Err(AudioError::EmptyChannels);
        }
        let resized_data = Self::resized_channels(&time_data, length, zero);
        proof {
            let e = grid(resized_data);
            assert(e.len() == grid(time_data).len());
            assert(e.len() >= 1);
            assert forall|c: int| 0 <= c < e.len() implies #[trigger] e[c].len() == e[0].len() by {}
            assert(audio_data_check(e) is Ok) by {
                Self::lemma_rectangular_checks(e);
            }
        }
        self.set_audio_data(sample_rate, channels, resized_data)
    }

    proof fn lemma_rectangular_checks<T>(d: Seq<Seq<T>>)
        requires
            is_rectangular(d),
        ensures
            audio_data_check(d) is Ok,
    {
        Self::lemma_rectangular_no_mismatch(d, 1);
    }

    proof fn lemma_rectangular_no_mismatch<T>(d: Seq<Seq<T>>, c: int)
        requires
            is_rectangular(d),
            c >= 1,
        ensures
            first_mismatch(d, c) == d.len(),
        decreases d.len() - c,
    {
        if c < d.len() {
            Self::lemma_rectangular_no_mismatch(d, c + 1);
        }
    }

    /// Reverse every channel of the time data in time.
    pub fn reverse_time_data(&mut self) -> (r: Result<(), AudioError>)
        requires
            old(self).wf(),
        ensures
            final(self).wf(),
            old(self).time_view() is None ==> r == Err::<(), AudioError>(AudioError::NoTimeData)
                && *final(self) == *old(self),
            old(self).time_view() is Some ==> {
                let d = old(self).time_view().unwrap();
                &&& r is Ok
                &&& final(self).time_view() == Some(Seq::new(d.len(), |c: int| d[c].reverse()))
                &&& final(self).spectrum_view() == old(self).spectrum_view()
                &&& final(self).stash_view() == old(self).stash_view()
                &&& final(self).sample_rate() == old(self).sample_rate()
                &&& final(self).channels() == old(self).channels()
                &&& final(self).fft_size() == old(self).fft_size()
                &&& final(self).spec_max_amplitude() == old(self).spec_max_amplitude()
            },
    {
        proof {
            self.lemma_views();
        }
        match self.time_data.take() {
            None => Err(AudioError::NoTimeData),
            Some(data) => {
                let ghost d = grid(data);
                let mut out: Vec<Vec<S>> = Vec::new();
                let mut c: usize = 0;
                while c < data.len()
                    invariant
                        d == grid(data),
                        is_rectangular(d),
                        c <= data.len(),
                        out@.len() == c,
                        forall|k: int| 0 <= k < c ==> (#[trigger] out@[k])@ == d[k].reverse(),
                    decreases data.len() - c,
                {
                    let channel = &data[c];
                    assert(channel@ == d[c as int]);
                    let len = channel.len();
                    let mut rev: Vec<S> = Vec::new();
                    let mut i: usize = 0;
                    while i < len
                        invariant
                            len == channel@.len(),
                            i <= len,
                            rev@.len() == i,
                            forall|j: int| 0 <= j < i ==> #[trigger] rev@[j] == channel@[len - 1 - j],
                        decreases len - i,
                    {
                        rev.push(channel[len - 1 - i]);
                        i = i + 1;
                    }
                    assert(rev@ =~= channel@.reverse());
                    out.push(rev);
                    c = c + 1;
                }
                assert(grid(out) =~= Seq::new(d.len(), |c: int| d[c].reverse()));
                self.time_data = Some(out);
                proof {
                    self.lemma_views();
                }
                Ok(())
            },
        }
    }

    /// Get information about the loaded audio data.
    pub fn get_info(&self) -> (r: AudioInfo)
        requires
            self.wf(),
        ensures
            r.sample_rate == self.sample_rate(),
            r.channels == self.channels(),
            r.fft_size == self.fft_size(),
            r.time_data == match self.time_view() {
                Some(t) => Some(
                    TimeDataInfo {
                        num_channels: t.len() as usize,
                        samples_per_channel: t[0].len() as usize,
                    },
                ),
                None => None::<TimeDataInfo>,
            },
            r.fft_data == match self.spectrum_view() {
                Some(f) => Some(
                    FFTDataInfo {
                        num_channels: f.len() as usize,
                        complex_values_per_channel: f[0].len() as usize,
                    },
                ),
                None => None::<FFTDataInfo>,
            },
    {
        proof {
            self.lemma_views();
        }
        let time_data_info = match &self.time_data {
            Some(data) => {
                assert(grid(*data)[0] == data@[0]@);
                Some(TimeDataInfo { num_channels: data.len(), samples_per_channel: data[0].len() })
            },
            None => None,
        };
        let fft_data_info = match &self.fft_data {
            Some(data) => {
                assert(grid(*data)[0] == data@[0]@);
                Some(
                    FFTDataInfo {
                        num_channels: data.len(),
                        complex_values_per_channel: data[0].len(),
                    },
                )
            },
            None => None,
        };
        AudioInfo {
            sample_rate: self.sample_rate,
            channels: self.channels,
            fft_size: self.fft_size,
            time_data: time_data_info,
            fft_data: fft_data_info,
        }
    }

    proof fn lemma_no_mismatch<T>(d: Seq<Seq<T>>, c: int)
        requires
            1 <= c,
            d.len() >= 1,
            first_mismatch(d, c) >= d.len(),
        ensures
            forall|k: int| c <= k < d.len() ==> #[trigger] d[k].len() == d[0].len(),
        decreases d.len() - c,
    {
        if c < d.len() {
            Self::lemma_no_mismatch(d, c + 1);
        }
    }
}

/// Set entry `b` of channel `c` of `data` to `value`.
pub(crate) fn set_entry<T>(data: &mut Vec<Vec<T>>, c: usize, b: usize, value: T)
    requires
        c < old(data)@.len(),
        b < old(data)@[c as int]@.len(),
    ensures
        final(data)@.len() == old(data)@.len(),
        forall|i: int|
            0 <= i < final(data)@.len() && i != c ==> #[trigger] final(data)@[i] == old(data)@[i],
        final(data)@[c as int]@ == old(data)@[c as int]@.update(b as int, value),
        grid(*final(data)) == grid(*old(data)).update(
            c as int,
            grid(*old(data))[c as int].update(b as int, value),
        ),
{
    let mut channel: Vec<T> = Vec::new();
    data.set_and_swap(c, &mut channel);
    channel.set(b, value);
    data.set_and_swap(c, &mut channel);
    assert(grid(*data) =~= grid(*old(data)).update(
        c as int,
        grid(*old(data))[c as int].update(b as int, value),
    ));
}

} // verus!
