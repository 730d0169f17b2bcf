//! Shared writers and the (de)interleaving of channel samples.

use std::cell::RefCell;
use std::io::{Seek, SeekFrom, Write};
use std::rc::Rc;
use vstd::prelude::*;

use crate::processor::grid;

verus! {

#[verifier::external_type_specification]
#[verifier::external_body]
#[verifier::reject_recursive_types(T)]
pub struct ExRefCell<T: ?Sized>(RefCell<T>);

#[verifier::external_type_specification]
#[verifier::external_body]
pub struct ExIoError(std::io::Error);

#[verifier::external_type_specification]
#[verifier::external_body]
pub struct ExSeekFrom(SeekFrom);

/// `RefCell::new` makes a cell that holds `value`; the cell is opaque here,
/// so nothing is stated of it.
pub assume_specification<T>[ RefCell::<T>::new ](value: T) -> RefCell<T>;

/// `Rc::clone` hands out another pointer to the same allocation, which Verus
/// sees as the same value.
#[verifier::external_body]
fn share_rc<T>(r: &Rc<T>) -> (res: Rc<T>)
    ensures
        res == *r,
{
    Rc::clone(r)
}

/// `RefCell::take` moves the value out of the cell, leaving `None`. What the
/// cell held is not tracked here, so the result is left free. (It panics if
/// the cell is borrowed; no borrow outlives a call of this module.)
#[verifier::external_body]
fn cell_take<W>(cell: &RefCell<Option<W>>) -> Option<W> {
    cell.take()
}

/// `RefCell::replace` puts `value` into the cell, dropping what it held.
#[verifier::external_body]
fn cell_put<W>(cell: &RefCell<Option<W>>, value: Option<W>) {
    cell.replace(value);
}

/// `io::Error::new` with kind `Other`, for a writer that was already taken.
#[verifier::external_body]
fn writer_taken() -> std::io::Error {
    std::io::Error::new(std::io::ErrorKind::Other, "Writer already taken")
}

/// `Write::write` of the inner writer; its outcome depends on the writer.
#[verifier::external_body]
fn write_to<W: Write>(writer: &mut W, buf: &[u8]) -> std::io::Result<usize> {
    writer.write(buf)
}

/// `Write::flush` of the inner writer; its outcome depends on the writer.
#[verifier::external_body]
fn flush_to<W: Write>(writer: &mut W) -> std::io::Result<()> {
    writer.flush()
}

/// `Seek::seek` of the inner writer; its outcome depends on the writer.
#[verifier::external_body]
fn seek_in<W: Seek>(writer: &mut W, pos: SeekFrom) -> std::io::Result<u64> {
    writer.seek(pos)
}

/// A writer shared by several handles, so that one handle can take the
/// writer back after another was given away (as to a WAV writer).
#[verifier::reject_recursive_types(W)]
pub struct SharedWriter<W> {
    writer: Rc<RefCell<Option<W>>>,
}

impl<W> SharedWriter<W> {
    /// The two handles share one writer.
    pub closed spec fn shares_with(&self, other: &Self) -> bool {
        self.writer == other.writer
    }

    /// A handle to `writer`.
    pub fn new(writer: W) -> Self {
        SharedWriter { writer: Rc::new(RefCell::new(Some(writer))) }
    }

    /// Another handle to the same writer.
    pub fn clone_ref(&self) -> (res: Self)
        ensures
            res.shares_with(self),
            self.shares_with(&res),
    {
        SharedWriter { writer: share_rc(&self.writer) }
    }

    /// Take the writer out, leaving none behind for any handle.
    pub fn take_writer(self) -> Option<W> {
        cell_take(&self.writer)
    }
}

impl<W: Write> Write for SharedWriter<W> {
    fn write(&mut self, buf: &[u8]) -> std::io::Result<usize> {
        match cell_take(&self.writer) {
            Some(mut writer) => {
                let result = write_to(&mut writer, buf);
                cell_put(&self.writer, Some(writer));
                result
            },
            None => Err(writer_taken()),
        }
    }

    fn flush(&mut self) -> std::io::Result<()> {
        match cell_take(&self.writer) {
            Some(mut writer) => {
                let result = flush_to(&mut writer);
                cell_put(&self.writer, Some(writer));
                result
            },
            None => Err(writer_taken()),
        }
    }
}

impl<W: Seek> Seek for SharedWriter<W> {
    fn seek(&mut self, pos: SeekFrom) -> std::io::Result<u64> {
        match cell_take(&self.writer) {
            Some(mut writer) => {
                let result = seek_in(&mut writer, pos);
                cell_put(&self.writer, Some(writer));
                result
            },
            None => Err(writer_taken()),
        }
    }
}

/// The channels' samples interleaved: sample `i` of every channel in
/// channel order, then sample `i + 1`, and so on.
pub open spec fn interleaved<T>(d: Seq<Seq<T>>) -> Seq<T> {
    Seq::new(d.len() * d[0].len(), |k: int| d[k % (d.len() as int)][k / (d.len() as int)])
}

/// An interleaved buffer split into `num_channels` channels; a trailing
/// incomplete frame is dropped.
pub open spec fn deinterleaved<T>(buffer: Seq<T>, num_channels: int) -> Seq<Seq<T>> {
    Seq::new(
        num_channels as nat,
        |c: int| Seq::new((buffer.len() as int / num_channels) as nat, |i: int| buffer[i * num_channels + c]),
    )
}

/// All channels have the length of the first.
pub open spec fn same_lengths<T>(d: Seq<Seq<T>>) -> bool {
    &&& d.len() >= 1
    &&& forall|c: int| 0 <= c < d.len() ==> #[trigger] d[c].len() == d[0].len()
}

/// There is a channel, and no channel is shorter than the first.
pub open spec fn first_is_shortest<T>(d: Seq<Seq<T>>) -> bool {
    &&& d.len() >= 1
    &&& forall|c: int| 0 <= c < d.len() ==> #[trigger] d[c].len() >= d[0].len()
}

proof fn lemma_frame_index(i: int, c: int, n: int, len: int)
    requires
        0 <= i < len,
        0 <= c < n,
    ensures
        (i * n + c) % n == c,
        (i * n + c) / n == i,
        0 <= i * n + c < len * n,
{
    vstd::arithmetic::div_mod::lemma_fundamental_div_mod_converse(i * n + c, n, i, c);
    assert(i * n + c < len * n) by (nonlinear_arith)
        requires
            0 <= i < len,
            0 <= c < n,
    ;
    assert(0 <= i * n) by (nonlinear_arith)
        requires
            0 <= i,
            0 <= n,
    ;
}

/// Interleave the samples of the channels, as many frames as the first
/// channel has samples.
pub fn interleave_channels<T: Copy>(channels: &Vec<Vec<T>>) -> (r: Vec<T>)
    requires
        first_is_shortest(grid(*channels)),
    ensures
        r@ == interleaved(grid(*channels)),
{
    let ghost d = grid(*channels);
    assert(d[0] == channels@[0]@);
    let num_channels = channels.len();
    let num_samples_per_channel = channels[0].len();
    let mut out: Vec<T> = Vec::new();
    let mut sample_idx: usize = 0;
    while sample_idx < num_samples_per_channel
        invariant
            d == grid(*channels),
            first_is_shortest(d),
            num_channels == d.len(),
            num_samples_per_channel == d[0].len(),
            sample_idx <= num_samples_per_channel,
            out@.len() == sample_idx * num_channels,
            forall|k: int| 0 <= k < out@.len() ==> #[trigger] out@[k] == interleaved(d)[k],
        decreases num_samples_per_channel - sample_idx,
    {
        let mut channel_idx: usize = 0;
        while channel_idx < num_channels
            invariant
                d == grid(*channels),
                first_is_shortest(d),
                num_channels == d.len(),
                num_samples_per_channel == d[0].len(),
                sample_idx < num_samples_per_channel,
                channel_idx <= num_channels,
                out@.len() == sample_idx * num_channels + channel_idx,
                forall|k: int| 0 <= k < out@.len() ==> #[trigger] out@[k] == interleaved(d)[k],
            decreases num_channels - channel_idx,
        {
            proof {
                lemma_frame_index(
                    sample_idx as int,
                    channel_idx as int,
                    num_channels as int,
                    num_samples_per_channel as int,
                );
                assert(d[channel_idx as int] == channels@[channel_idx as int]@);
                assert(num_channels * num_samples_per_channel == num_samples_per_channel * num_channels)
                    by (nonlinear_arith);
            }
            out.push(channels[channel_idx][sample_idx]);
            channel_idx = channel_idx + 1;
        }
        assert((sample_idx + 1) * num_channels == sample_idx * num_channels + num_channels)
            by (nonlinear_arith);
        sample_idx = sample_idx + 1;
    }
    assert(num_channels * num_samples_per_channel == num_samples_per_channel * num_channels)
        by (nonlinear_arith);
    assert(out@ =~= interleaved(d));
    out
}

/// Split an interleaved buffer into `num_channels` channels.
pub fn deinterleave_samples<T: Copy>(buffer: &Vec<T>, num_channels: usize) -> (r: Vec<Vec<T>>)
    requires
        num_channels >= 1,
    ensures
        grid(r) == deinterleaved(buffer@, num_channels as int),
{
    let channel_length = buffer.len() / num_channels;
    let mut samples: Vec<Vec<T>> = Vec::new();
    let mut ch: usize = 0;
    while ch < num_channels
        invariant
            num_channels >= 1,
            channel_length == buffer@.len() as int / (num_channels as int),
            ch <= num_channels,
            samples@.len() == ch,
            forall|c: int|
                0 <= c < ch ==> (#[trigger] samples@[c])@ == deinterleaved(
                    buffer@,
                    num_channels as int,
                )[c],
        decreases num_channels - ch,
    {
        let mut channel: Vec<T> = Vec::new();
        let mut i: usize = 0;
        while i < channel_length
            invariant
                num_channels >= 1,
                channel_length == buffer@.len() as int / (num_channels as int),
                ch < num_channels,
                i <= channel_length,
                channel@.len() == i,
                forall|j: int|
                    0 <= j < i ==> #[trigger] channel@[j] == buffer@[j * num_channels + ch],
            decreases channel_length - i,
        {
            proof {
                lemma_frame_index(i as int, ch as int, num_channels as int, channel_length as int);
                assert(channel_length * num_channels <= buffer@.len()) by (nonlinear_arith)
                    requires
                        channel_length == buffer@.len() as int / (num_channels as int),
                        num_channels >= 1,
                ;
                assert(buffer@.len() == buffer.len());
                assert(i * num_channels + ch < buffer.len());
            }
            channel.push(buffer[i * num_channels + ch]);
            i = i + 1;
        }
        assert(channel@ =~= deinterleaved(buffer@, num_channels as int)[ch as int]);
        samples.push(channel);
        ch = ch + 1;
    }
    assert(grid(samples) =~= deinterleaved(buffer@, num_channels as int));
    samples
}

/// Splitting interleaved channels gives back the channels.
pub proof fn lemma_deinterleave_interleaved<T>(d: Seq<Seq<T>>)
    requires
        same_lengths(d),
    ensures
        deinterleaved(interleaved(d), d.len() as int) == d,
{
    let n = d.len() as int;
    let len = d[0].len() as int;
    let buf = interleaved(d);
    assert(buf.len() == n * len);
    assert(buf.len() as int / n == len) by {
        assert(n * len == len * n) by (nonlinear_arith);
        vstd::arithmetic::div_mod::lemma_fundamental_div_mod_converse(len * n, n, len, 0);
    }
    let e = deinterleaved(buf, n);
    assert forall|c: int| 0 <= c < n implies #[trigger] e[c] =~= d[c] by {
        assert forall|i: int| 0 <= i < len implies #[trigger] e[c][i] == d[c][i] by {
            lemma_frame_index(i, c, n, len);
            assert(n * len == len * n) by (nonlinear_arith);
        }
    }
    assert(e =~= d);
}

} // verus!
