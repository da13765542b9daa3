//! Audio backends as the engine sees them: a name and a status record.
//! Device access lives with the application; `NullBackend` needs none.
use vstd::prelude::*;
use vstd::string::StringExecFns;

use crate::report::Diagnostics;

verus! {

#[derive(Debug)]
pub enum BackendError {
    NoDevice,
    Device(String),
    Io(String),
    Unsupported(String),
}

/// The message a backend error is shown with.
pub open spec fn backend_message_of(e: BackendError) -> Seq<char> {
    match e {
        BackendError::NoDevice => "no audio device"@,
        BackendError::Device(m) => "device: "@ + m@,
        BackendError::Io(m) => "io: "@ + m@,
        BackendError::Unsupported(m) => "unsupported: "@ + m@,
    }
}

impl BackendError {
    /// The message the error is shown with.
    pub fn message(&self) -> (r: String)
        ensures
            r@ == backend_message_of(*self),
    {
        match self {
            BackendError::NoDevice => String::from_str("no audio device"),
            BackendError::Device(m) => {
                let mut s = String::from_str("device: ");
                s.append(m.as_str());
                s
            },
            BackendError::Io(m) => {
                let mut s = String::from_str("io: ");
                s.append(m.as_str());
                s
            },
            BackendError::Unsupported(m) => {
                let mut s = String::from_str("unsupported: ");
                s.append(m.as_str());
                s
            },
        }
    }
}

#[derive(Debug, Clone)]
pub struct AudioStatus {
    pub backend: String,
    pub host: String,
    pub default_output: Option<String>,
    pub sample_rate: Option<u32>,
    pub channels: Option<u16>,
    pub pipewire: bool,
}

pub trait AudioBackend {
    fn name(&self) -> &'static str;

    fn status(&self) -> AudioStatus;
}

/// A backend that plays nothing and needs no device.
pub struct NullBackend;

impl AudioBackend for NullBackend {
    fn name(&self) -> (r: &'static str)
        ensures
            r@ == "null"@,
    {
        "null"
    }

    fn status(&self) -> (r: AudioStatus)
        ensures
            r.backend@ == "null"@,
            r.host@ == "none"@,
            r.default_output is None,
            r.sample_rate is None,
            r.channels is None,
            !r.pipewire,
    {
        AudioStatus {
            backend: String::from_str("null"),
            host: String::from_str("none"),
            default_output: None,
            sample_rate: None,
            channels: None,
            pipewire: false,
        }
    }
}

/// A text option taken by its characters.
pub open spec fn text_opt(o: Option<String>) -> Option<Seq<char>> {
    match o {
        Some(s) => Some(s@),
        None => None,
    }
}

fn clone_text_opt(o: &Option<String>) -> (r: Option<String>)
    ensures
        text_opt(r) == text_opt(*o),
{
    match o {
        Some(s) => Some(s.clone()),
        None => None,
    }
}

/// Two status records say the same thing.
pub open spec fn same_status(a: AudioStatus, b: AudioStatus) -> bool {
    &&& a.backend@ == b.backend@
    &&& a.host@ == b.host@
    &&& text_opt(a.default_output) == text_opt(b.default_output)
    &&& a.sample_rate == b.sample_rate
    &&& a.channels == b.channels
    &&& a.pipewire == b.pipewire
}

/// A copy of a status record.
pub fn clone_status(s: &AudioStatus) -> (r: AudioStatus)
    ensures
        same_status(r, *s),
{
    AudioStatus {
        backend: s.backend.clone(),
        host: s.host.clone(),
        default_output: clone_text_opt(&s.default_output),
        sample_rate: s.sample_rate,
        channels: s.channels,
        pipewire: s.pipewire,
    }
}

/// The default output of a cpal host, as probed: the host's name, the
/// default device's name and its default configuration, where there is one.
pub struct CpalBackend {
    status: AudioStatus,
}

impl CpalBackend {
    pub closed spec fn spec_status(&self) -> AudioStatus {
        self.status
    }

    /// The backend for what probing the host found.
    pub fn probed(
        host: String,
        default_output: Option<String>,
        sample_rate: Option<u32>,
        channels: Option<u16>,
    ) -> (r: Self)
        ensures
            r.spec_status().backend@ == "cpal"@,
            r.spec_status().host@ == host@,
            text_opt(r.spec_status().default_output) == text_opt(default_output),
            r.spec_status().sample_rate == sample_rate,
            r.spec_status().channels == channels,
            !r.spec_status().pipewire,
    {
        CpalBackend {
            status: AudioStatus {
                backend: String::from_str("cpal"),
                host,
                default_output,
                sample_rate,
                channels,
                pipewire: false,
            },
        }
    }
}

impl AudioBackend for CpalBackend {
    fn name(&self) -> (r: &'static str)
        ensures
            r@ == "cpal"@,
    {
        "cpal"
    }

    fn status(&self) -> (r: AudioStatus)
        ensures
            same_status(r, self.spec_status()),
    {
        clone_status(&self.status)
    }
}

/// Where sample `i` of a block that starts at frame `first` goes for channel
/// `c`, with `stride` samples per frame.
pub open spec fn fan_slot(first: int, stride: int, i: int, c: int) -> int {
    (first + i) * stride + c
}

/// What fanning a block out leaves at position `x` of `data`: the block's
/// sample for that frame when `x` is one of its first `copies` channels,
/// the old value otherwise.
pub open spec fn fanned<T>(data: Seq<T>, stride: int, copies: int, first: int, block: Seq<T>, x: int) -> T {
    let i = x / stride - first;
    if 0 <= i < block.len() && x % stride < copies {
        block[i]
    } else {
        data[x]
    }
}

/// `fanned` for the first `i` samples, with sample `i` written into its
/// first `c` channels.
pub open spec fn frame_fanned<T>(
    data: Seq<T>,
    stride: int,
    copies: int,
    first: int,
    block: Seq<T>,
    i: int,
    c: int,
    x: int,
) -> T {
    if x / stride == first + i && x % stride < c {
        block[i]
    } else {
        fanned(data, stride, copies, first, block.take(i), x)
    }
}

proof fn lemma_fan_slot(first: int, stride: int, i: int, c: int)
    requires
        stride > 0,
        0 <= c < stride,
        0 <= first,
        0 <= i,
    ensures
        fan_slot(first, stride, i, c) / stride == first + i,
        fan_slot(first, stride, i, c) % stride == c,
        fan_slot(first, stride, i, c) >= 0,
{
    vstd::arithmetic::div_mod::lemma_fundamental_div_mod_converse(
        fan_slot(first, stride, i, c),
        stride,
        first + i,
        c,
    );
    assert((first + i) * stride >= 0) by (nonlinear_arith)
        requires
            first + i >= 0,
            stride > 0,
    ;
}

/// Writes each sample of `block` into the first `copies` channels of its
/// frame in the interleaved buffer `data` (frame `first + i` for sample `i`,
/// `stride` samples per frame); positions past the end of `data` are skipped.
pub fn fan_out<T: Copy>(data: &mut [T], stride: usize, copies: usize, first: usize, block: &[T])
    requires
        stride > 0,
        copies <= stride,
        (first + block@.len()) * stride <= usize::MAX,
    ensures
        final(data)@.len() == old(data)@.len(),
        forall|x: int|
            0 <= x < old(data)@.len() ==> #[trigger] final(data)@[x] == fanned(
                old(data)@,
                stride as int,
                copies as int,
                first as int,
                block@,
                x,
            ),
{
    let ghost d0 = data@;
    let mut i: usize = 0;
    while i < block.len()
        invariant
            stride > 0,
            copies <= stride,
            (first + block@.len()) * stride <= usize::MAX,
            i <= block@.len(),
            data@.len() == d0.len(),
            forall|x: int|
                0 <= x < d0.len() ==> #[trigger] data@[x] == fanned(
                    d0,
                    stride as int,
                    copies as int,
                    first as int,
                    block@.take(i as int),
                    x,
                ),
        decreases block.len() - i,
    {
        assert((first + i) * stride + stride <= (first + block@.len()) * stride && first + i <= (
        first + i) * stride) by (nonlinear_arith)
            requires
                i < block@.len(),
                stride > 0,
        ;
        let base = (first + i) * stride;
        let mut c: usize = 0;
        while c < copies
            invariant
                stride > 0,
                copies <= stride,
                i < block@.len(),
                base == (first + i) * stride,
                base + stride <= usize::MAX,
                c <= copies,
                data@.len() == d0.len(),
                forall|x: int|
                    0 <= x < d0.len() ==> #[trigger] data@[x] == frame_fanned(
                        d0,
                        stride as int,
                        copies as int,
                        first as int,
                        block@,
                        i as int,
                        c as int,
                        x,
                    ),
            decreases copies - c,
        {
            if base + c < data.len() {
                proof {
                    lemma_fan_slot(first as int, stride as int, i as int, c as int);
                }
                data[base + c] = block[i];
            }
            proof {
                assert forall|x: int| 0 <= x < d0.len() implies #[trigger] data@[x] == frame_fanned(
                    d0,
                    stride as int,
                    copies as int,
                    first as int,
                    block@,
                    i as int,
                    c + 1,
                    x,
                ) by {
                    if x == base + c {
                        lemma_fan_slot(first as int, stride as int, i as int, c as int);
                    } else if x / (stride as int) == first + i && x % (stride as int) == c {
                        vstd::arithmetic::div_mod::lemma_fundamental_div_mod(x, stride as int);
                        let q = x / (stride as int);
                        let r = x % (stride as int);
                        assert(x == base + c) by (nonlinear_arith)
                            requires
                                x == stride * q + r,
                                q == first + i,
                                r == c,
                                base == (first + i) * stride,
                        ;
                    }
                }
            }
            c = c + 1;
        }
        proof {
            assert forall|x: int| 0 <= x < d0.len() implies #[trigger] data@[x] == fanned(
                d0,
                stride as int,
                copies as int,
                first as int,
                block@.take(i + 1),
                x,
            ) by {
                let j = x / (stride as int) - first;
                if j == i as int && x % (stride as int) < copies {
                } else if 0 <= j < i && x % (stride as int) < copies {
                    assert(block@.take(i + 1)[j] == block@.take(i as int)[j]);
                }
            }
        }
        i = i + 1;
    }
    proof {
        assert(block@.take(i as int) =~= block@);
    }
}

/// The diagnostics `d`, reported for backend `backend`.
pub fn merge_diag(d: Diagnostics, backend: &str) -> (r: Diagnostics)
    ensures
        r.backend@ == backend@,
        r.blocks == d.blocks,
        r.frames == d.frames,
        r.xruns == d.xruns,
        r.last_block_ns == d.last_block_ns,
        r.sample_rate == d.sample_rate,
        r.max_block == d.max_block,
        r.nodes == d.nodes,
{
    let mut d = d;
    d.backend = String::from_str(backend);
    d
}

} // verus!
