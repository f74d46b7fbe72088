//! The decoder of raw LZMA2 streams.
use vstd::prelude::*;

use crate::error::Error;
use crate::lzma2_internal::coding::{fresh_mode, fresh_probs, Lzma2Props};
use crate::lzma2_internal::lzma2_decoder::{chunk_read, dict_size_of, fresh_core};
use crate::lzma2_internal::lzma2_decoder::{lzma2_dict_size, props_of, Core, LzmaCore};
use crate::machine::{midway, midway_drain, midway_start, midway_stop, midway_take};
use crate::machine::{transduces, Machine, Queue};
use crate::traits::idle;
use crate::traits::{RawDecoder, RawProgress};

verus! {

/// Largest dictionary that is allocated.
pub const MAX_DICT: usize = 134_217_728;

/// Smallest dictionary that is allocated.
pub const MIN_DICT: usize = 4096;

/// Size of the dictionary where none is given.
pub const DEFAULT_DICT: usize = 4_194_304;

/// The properties of a dictionary that was begun by a stored chunk.
pub open spec fn default_props() -> Lzma2Props {
    Lzma2Props { lc: 3, lp: 0, pb: 2 }
}

/// What a decoder is told. All of it can be left out.
#[derive(Debug, Clone, Copy)]
pub struct DecoderConfig {
    /// The byte that stands for the size of the dictionary.
    pub dict_prop: Option<u8>,
    /// The size of the dictionary; goes before `dict_prop`.
    pub dict_size: Option<usize>,
    /// The unpacked length, which is not needed.
    pub expected_len: Option<usize>,
}

impl DecoderConfig {
    /// A configuration with a dictionary-size byte.
    pub fn with_dict_prop(byte: u8) -> (c: Self)
        ensures
            c == (DecoderConfig { dict_prop: Some(byte), dict_size: None, expected_len: None }),
    {
        DecoderConfig { dict_prop: Some(byte), dict_size: None, expected_len: None }
    }

    /// A configuration with a dictionary size.
    pub fn with_dict_size(bytes: usize) -> (c: Self)
        ensures
            c == (DecoderConfig { dict_prop: None, dict_size: Some(bytes), expected_len: None }),
    {
        DecoderConfig { dict_prop: None, dict_size: Some(bytes), expected_len: None }
    }

    /// The configuration with an unpacked length.
    pub fn with_len(self, n: usize) -> (c: Self)
        ensures
            c == (DecoderConfig { expected_len: Some(n), ..self }),
    {
        DecoderConfig {
            dict_prop: self.dict_prop,
            dict_size: self.dict_size,
            expected_len: Some(n),
        }
    }
}

impl Default for DecoderConfig {
    fn default() -> (c: Self)
        ensures
            c == (DecoderConfig { dict_prop: None, dict_size: None, expected_len: None }),
    {
        DecoderConfig { dict_prop: None, dict_size: None, expected_len: None }
    }
}

/// `n`, moved into the range of sizes that are allocated.
pub open spec fn clamped(n: nat) -> nat {
    if n < MIN_DICT {
        MIN_DICT as nat
    } else if n > MAX_DICT {
        MAX_DICT as nat
    } else {
        n
    }
}

/// The size of the dictionary that a configuration asks for.
pub open spec fn configured(cfg: DecoderConfig) -> Option<nat> {
    match cfg.dict_size {
        Some(n) => Some(clamped(n as nat)),
        None => match cfg.dict_prop {
            Some(b) => match dict_size_of(b) {
                Some(n) => Some(clamped(n)),
                None => None,
            },
            None => Some(DEFAULT_DICT as nat),
        },
    }
}

/// The size of the dictionary that a configuration asks for.
fn resolve_dict_size(cfg: &DecoderConfig) -> (r: Result<usize, Error>)
    ensures
        match configured(*cfg) {
            Some(n) => r == Ok::<usize, Error>(n as usize) && MIN_DICT <= n <= MAX_DICT,
            None => r is Err,
        },
{
    let raw: u64 = match cfg.dict_size {
        Some(n) => n as u64,
        None => match cfg.dict_prop {
            Some(b) => lzma2_dict_size(b)? as u64,
            None => DEFAULT_DICT as u64,
        },
    };
    Ok(
        if raw < MIN_DICT as u64 {
            MIN_DICT
        } else if raw > MAX_DICT as u64 {
            MAX_DICT
        } else {
            raw as usize
        },
    )
}

/// Where in a stream a decoder is.
pub enum Stage {
    /// Before the first byte of a chunk.
    Control,
    /// Before the size of a stored chunk.
    StoredHigh,
    /// Before its second byte.
    StoredLow {
        /// The first byte.
        high: u8,
    },
    /// Within a stored chunk.
    Stored {
        /// How many bytes are left.
        left: nat,
    },
    /// Within the header of a coded chunk.
    Header {
        /// The first byte.
        control: u8,
        /// The bytes behind it.
        got: Seq<u8>,
    },
    /// Within the code of a chunk.
    Body {
        /// The size.
        n: nat,
        /// The size of the code.
        size: nat,
        /// The code so far.
        got: Seq<u8>,
    },
    /// Behind the end.
    Done,
    /// The stream is wrong.
    Failed {
        /// How.
        error: Error,
    },
}

/// A decoder.
pub struct Place {
    /// Where it is.
    pub stage: Stage,
    /// What the chunks so far left.
    pub core: Option<Core>,
    /// No chunk has begun yet.
    pub first: bool,
    /// The size of the dictionary.
    pub cap: nat,
}

/// The place before the first byte.
pub open spec fn start(cap: nat) -> Place {
    Place { stage: Stage::Control, core: None, first: true, cap }
}

/// How many bytes follow the first one in the header of a coded chunk.
pub open spec fn header_len(control: u8) -> nat {
    if control / 64 % 2 == 1 {
        5
    } else {
        4
    }
}

/// The state that a coded chunk starts from.
pub open spec fn opened(core: Option<Core>, cap: nat, control: u8, props: u8) -> Option<Core> {
    let reset = control / 32 % 4;
    if reset == 3 {
        match props_of(props) {
            Some(p) => Some(fresh_core(p, cap)),
            None => None,
        }
    } else {
        match core {
            None => None,
            Some(c) => if reset == 2 {
                match props_of(props) {
                    Some(p) => Some(
                        Core { props: p, probs: fresh_probs(p), mode: fresh_mode(), ..c },
                    ),
                    None => None,
                }
            } else if reset == 1 {
                Some(Core { probs: fresh_probs(c.props), mode: fresh_mode(), ..c })
            } else {
                Some(c)
            },
        }
    }
}

/// The size in the header of a coded chunk.
pub open spec fn chunk_size(control: u8, h: Seq<u8>) -> nat {
    (control as nat % 32) * 65536 + h[0] as nat * 256 + h[1] as nat + 1
}

/// The size of its code.
pub open spec fn code_size(h: Seq<u8>) -> nat {
    h[2] as nat * 256 + h[3] as nat + 1
}

impl Place {
    /// The place where the stream is wrong.
    pub open spec fn failed(self, error: Error) -> Place {
        Place { stage: Stage::Failed { error }, core: None, ..self }
    }

    /// The place behind the first byte of a chunk.
    pub open spec fn at_control(self, b: u8) -> Place {
        if b == 0 {
            Place { stage: Stage::Done, ..self }
        } else if b == 1 || b == 2 {
            if self.first && b != 1 {
                self.failed(Error::Corrupt)
            } else {
                Place {
                    stage: Stage::StoredHigh,
                    core: if b == 1 {
                        None
                    } else {
                        self.core
                    },
                    first: false,
                    cap: self.cap,
                }
            }
        } else if b >= 0x80 && !(self.first && b < 0xE0) {
            Place { stage: Stage::Header { control: b, got: Seq::empty() }, ..self }
        } else {
            self.failed(Error::Corrupt)
        }
    }

    /// The place behind a byte of a stored chunk.
    pub open spec fn at_stored(self, left: nat, b: u8) -> Place {
        let core = match self.core {
            Some(c) => c,
            None => fresh_core(default_props(), self.cap),
        };
        Place {
            stage: if left <= 1 {
                Stage::Control
            } else {
                Stage::Stored { left: (left - 1) as nat }
            },
            core: Some(Core { out: core.out.push(b), ..core }),
            ..self
        }
    }

    /// The place behind a byte of the header of a coded chunk.
    pub open spec fn at_header(self, control: u8, got: Seq<u8>) -> Place {
        if got.len() < header_len(control) {
            Place { stage: Stage::Header { control, got }, ..self }
        } else {
            match opened(self.core, self.cap, control, got[4]) {
                None => self.failed(Error::Corrupt),
                Some(c) => Place {
                    stage: Stage::Body {
                        n: chunk_size(control, got),
                        size: code_size(got),
                        got: Seq::empty(),
                    },
                    core: Some(c),
                    first: false,
                    cap: self.cap,
                },
            }
        }
    }

    /// The place behind a byte of the code of a chunk.
    pub open spec fn at_body(self, n: nat, size: nat, got: Seq<u8>) -> Place {
        if got.len() < size {
            Place { stage: Stage::Body { n, size, got }, ..self }
        } else {
            match chunk_read(self.core->0, got, n) {
                Err(e) => self.failed(e),
                Ok(c) => Place { stage: Stage::Control, core: Some(c), ..self },
            }
        }
    }
}

impl Machine for Place {
    open spec fn fed(self, b: u8) -> Place {
        match self.stage {
            Stage::Control => self.at_control(b),
            Stage::StoredHigh => Place { stage: Stage::StoredLow { high: b }, ..self },
            Stage::StoredLow { high } => Place {
                stage: Stage::Stored { left: high as nat * 256 + b as nat + 1 },
                ..self
            },
            Stage::Stored { left } => self.at_stored(left, b),
            Stage::Header { control, got } => self.at_header(control, got.push(b)),
            Stage::Body { n, size, got } => self.at_body(n, size, got.push(b)),
            Stage::Done => self,
            Stage::Failed { error } => self,
        }
    }

    open spec fn emits(self, b: u8) -> Seq<u8> {
        match self.stage {
            Stage::Stored { left } => seq![b],
            Stage::Body { n, size, got } => if got.len() + 1 < size {
                Seq::empty()
            } else {
                match chunk_read(self.core->0, got.push(b), n) {
                    Err(e) => Seq::empty(),
                    Ok(c) => c.out.skip((self.core->0).out.len() as int),
                }
            },
            _ => Seq::empty(),
        }
    }

    open spec fn room(self, b: u8) -> nat {
        if self.stage is Stored {
            1
        } else {
            0
        }
    }

    open spec fn halted(self) -> bool {
        self.stage is Done || self.stage is Failed
    }
}

/// Where the decoder is.
enum Phase {
    Control,
    StoredHigh,
    StoredLow { high: u8 },
    Stored { left: usize },
    Header { control: u8 },
    Body { n: usize, size: usize },
    Done,
    Failed { error: Error },
}

/// A decoder of raw LZMA2 streams.
pub struct Decoder {
    phase: Phase,
    core: Option<LzmaCore>,
    first: bool,
    dict_size: usize,
    scratch: Vec<u8>,
    queue: Queue,
}

impl Decoder {
    /// Where the decoder is.
    pub closed spec fn place(&self) -> Place {
        Place {
            stage: match self.phase {
                Phase::Control => Stage::Control,
                Phase::StoredHigh => Stage::StoredHigh,
                Phase::StoredLow { high } => Stage::StoredLow { high },
                Phase::Stored { left } => Stage::Stored { left: left as nat },
                Phase::Header { control } => Stage::Header { control, got: self.scratch@ },
                Phase::Body { n, size } => Stage::Body {
                    n: n as nat,
                    size: size as nat,
                    got: self.scratch@,
                },
                Phase::Done => Stage::Done,
                Phase::Failed { error } => Stage::Failed { error },
            },
            core: match self.core {
                Some(c) => Some(c@),
                None => None,
            },
            first: self.first,
            cap: self.dict_size as nat,
        }
    }

    /// The output that waits.
    pub closed spec fn pending(&self) -> Seq<u8> {
        self.queue@
    }

    spec fn state_inv(&self) -> bool {
        &&& MIN_DICT <= self.dict_size <= MAX_DICT
        &&& self.core matches Some(c) ==> c.inv() && c@.cap == self.dict_size
        &&& self.phase matches Phase::Header { control } ==> self.scratch@.len() < header_len(
            control,
        )
        &&& self.phase matches Phase::Body { n, size } ==> {
            &&& 0 < n
            &&& n <= 0x20_0000
            &&& 0 < size
            &&& self.scratch@.len() < size
            &&& self.core is Some
        }
        &&& self.phase matches Phase::Stored { left } ==> left > 0
    }

    /// A decoder for the given configuration. A dictionary-size byte that stands
    /// for nothing makes it fail.
    pub fn new(cfg: DecoderConfig) -> (d: Self)
        ensures
            d.inv(),
            d.pending().len() == 0,
            d.place() == match configured(cfg) {
                Some(n) => start(n),
                None => start(DEFAULT_DICT as nat).failed(Error::Corrupt),
            },
    {
        let (dict_size, phase): (usize, Phase) = match resolve_dict_size(&cfg) {
            Ok(n) => (n, Phase::Control),
            Err(_) => (DEFAULT_DICT, Phase::Failed { error: Error::Corrupt }),
        };
        Decoder {
            phase,
            core: None,
            first: true,
            dict_size,
            scratch: Vec::new(),
            queue: Queue::new(),
        }
    }

    /// Remembers that the stream is wrong.
    fn fail(&mut self, error: Error)
        requires
            MIN_DICT <= old(self).dict_size <= MAX_DICT,
        ensures
            final(self).state_inv(),
            final(self).place() == old(self).place().failed(error),
            final(self).queue == old(self).queue,
    {
        self.core = None;
        self.phase = Phase::Failed { error };
    }

    fn feed_control(&mut self, b: u8)
        requires
            old(self).state_inv(),
            old(self).phase is Control,
        ensures
            final(self).state_inv(),
            final(self).place() == old(self).place().at_control(b),
            final(self).queue == old(self).queue,
    {
        if b == 0 {
            self.phase = Phase::Done;
        } else if b == 1 || b == 2 {
            if self.first && b != 1 {
                self.fail(Error::Corrupt);
                return;
            }
            if b == 1 {
                self.core = None;
            }
            self.first = false;
            self.phase = Phase::StoredHigh;
        } else if b >= 0x80 && !(self.first && b < 0xE0) {
            self.scratch.clear();
            self.phase = Phase::Header { control: b };
        } else {
            self.fail(Error::Corrupt);
        }
    }

    /// Appends a stored byte to the dictionary.
    fn feed_uncompressed_dict(&mut self, b: u8)
        requires
            old(self).state_inv(),
        ensures
            final(self).state_inv(),
            final(self).place() == ({
                let p = old(self).place();
                let c = match p.core {
                    Some(c) => c,
                    None => fresh_core(default_props(), p.cap),
                };
                Place { core: Some(Core { out: c.out.push(b), ..c }), ..p }
            }),
            final(self).queue == old(self).queue,
            final(self).phase == old(self).phase,
    {
        let mut taken: Option<LzmaCore> = None;
        std::mem::swap(&mut taken, &mut self.core);
        let mut core = match taken {
            Some(c) => c,
            None => LzmaCore::new(Lzma2Props { lc: 3, lp: 0, pb: 2 }, self.dict_size),
        };
        let ghost before = core@;
        core.append_literals([b].as_slice());
        assert(before.out + [b]@ =~= before.out.push(b));
        self.core = Some(core);
    }

    /// Prepares for a coded chunk; the header is complete.
    fn open_chunk(&mut self, control: u8)
        requires
            old(self).phase is Control,
            old(self).scratch@.len() == header_len(control),
            MIN_DICT <= old(self).dict_size <= MAX_DICT,
            old(self).core matches Some(c) ==> c.inv() && c@.cap == old(self).dict_size,
        ensures
            final(self).state_inv(),
            final(self).place() == old(self).place().at_header(control, old(self).scratch@),
            final(self).queue == old(self).queue,
    {
        let reset: u8 = control / 32 % 4;
        let n: usize = (control % 32) as usize * 65536 + self.scratch[0] as usize * 256
            + self.scratch[1] as usize + 1;
        let size: usize = self.scratch[2] as usize * 256 + self.scratch[3] as usize + 1;
        let mut taken: Option<LzmaCore> = None;
        std::mem::swap(&mut taken, &mut self.core);
        let ghost p0 = old(self).place();
        if reset == 3 {
            match Lzma2Props::parse(self.scratch[4]) {
                Ok(props) => {
                    let core = match taken {
                        Some(c) => {
                            let mut c = c;
                            c.reset_full(props);
                            c
                        },
                        None => LzmaCore::new(props, self.dict_size),
                    };
                    self.core = Some(core);
                },
                Err(_) => {
                    self.fail(Error::Corrupt);
                    return;
                },
            }
        } else {
            let mut core = match taken {
                Some(c) => c,
                None => {
                    self.fail(Error::Corrupt);
                    return;
                },
            };
            if reset == 2 {
                match Lzma2Props::parse(self.scratch[4]) {
                    Ok(props) => {
                        core.replace_props(props);
                        core.reset_state();
                    },
                    Err(_) => {
                        self.fail(Error::Corrupt);
                        return;
                    },
                }
            } else if reset == 1 {
                core.reset_state();
            }
            self.core = Some(core);
        }
        self.first = false;
        self.scratch.clear();
        self.phase = Phase::Body { n, size };
    }

    /// Decodes a chunk; the code is complete.
    fn decode_body(&mut self, n: usize)
        requires
            old(self).phase is Control,
            0 < n <= 0x20_0000,
            MIN_DICT <= old(self).dict_size <= MAX_DICT,
            old(self).core matches Some(c) && c.inv() && c@.cap == old(self).dict_size,
            old(self).queue.inv(),
        ensures
            final(self).state_inv(),
            final(self).queue.inv(),
            match chunk_read(old(self).place().core->0, old(self).scratch@, n as nat) {
                Err(e) => {
                    &&& final(self).place() == old(self).place().failed(e)
                    &&& final(self).queue@ == old(self).queue@
                },
                Ok(c) => {
                    &&& final(self).place() == (Place { core: Some(c), ..old(self).place() })
                    &&& final(self).queue@ == old(self).queue@ + c.out.skip(
                        (old(self).place().core->0).out.len() as int,
                    )
                },
            },
    {
        let mut taken: Option<LzmaCore> = None;
        std::mem::swap(&mut taken, &mut self.core);
        if let Some(c) = taken {
            let mut core = c;
            let ghost before = core@;
            reveal(chunk_read);
            let mut decoded: Vec<u8> = vec![0u8;n];
            if let Err(e) = core.init_range(self.scratch.as_slice()) {
                self.fail(e);
                return;
            }
            match core.decode_chunk(self.scratch.as_slice(), decoded.as_mut_slice()) {
                Err(e) => {
                    self.fail(e);
                },
                Ok(()) => {
                    proof {
                        assert(core@.out.skip(before.out.len() as int) =~= decoded@);
                    }
                    self.queue.extend(decoded.as_slice());
                    self.core = Some(core);
                },
            }
        }
    }

    /// Takes one byte.
    fn feed(&mut self, b: u8)
        requires
            old(self).inv(),
            old(self).queue@.len() == 0,
            !old(self).place().halted(),
        ensures
            final(self).inv(),
            final(self).place() == old(self).place().fed(b),
            final(self).queue@ == old(self).place().emits(b),
    {
        let ghost p0 = self.place();
        match self.phase {
            Phase::Control => {
                self.feed_control(b);
                assert(self.queue@ =~= p0.emits(b));
            },
            Phase::StoredHigh => {
                self.phase = Phase::StoredLow { high: b };
                assert(self.queue@ =~= p0.emits(b));
            },
            Phase::StoredLow { high } => {
                self.phase = Phase::Stored { left: high as usize * 256 + b as usize + 1 };
                assert(self.queue@ =~= p0.emits(b));
            },
            Phase::Stored { left } => {
                self.feed_uncompressed_dict(b);
                self.queue.push(b);
                self.phase = if left == 1 {
                    Phase::Control
                } else {
                    Phase::Stored { left: left - 1 }
                };
                assert(self.queue@ =~= p0.emits(b));
            },
            Phase::Header { control } => {
                self.scratch.push(b);
                let want: usize = if control / 64 % 2 == 1 {
                    5
                } else {
                    4
                };
                if self.scratch.len() == want {
                    self.phase = Phase::Control;
                    self.open_chunk(control);
                }
                assert(self.queue@ =~= p0.emits(b));
            },
            Phase::Body { n, size } => {
                self.scratch.push(b);
                if self.scratch.len() == size {
                    self.phase = Phase::Control;
                    let ghost empty = self.queue@;
                    self.decode_body(n);
                    proof {
                        assert(empty =~= Seq::empty());
                        assert(self.queue@ =~= p0.emits(b));
                    }
                } else {
                    assert(self.queue@ =~= p0.emits(b));
                }
            },
            Phase::Done => {},
            Phase::Failed { error } => {},
        }
    }
}

impl Default for Decoder {
    fn default() -> (d: Self)
        ensures
            d.inv(),
            d.pending().len() == 0,
            d.place() == start(DEFAULT_DICT as nat),
    {
        Decoder::new(DecoderConfig::default())
    }
}

impl RawDecoder for Decoder {
    closed spec fn inv(&self) -> bool {
        &&& self.state_inv()
        &&& self.queue.inv()
    }

    open spec fn decode_post(
        before: Self,
        input: Seq<u8>,
        old_output: Seq<u8>,
        after: Self,
        new_output: Seq<u8>,
        r: Result<RawProgress, Error>,
    ) -> bool {
        if before.place().stage is Failed {
            &&& r == Err::<RawProgress, Error>(Error::Corrupt)
            &&& new_output == old_output
            &&& after.place() == before.place()
            &&& after.pending() == before.pending()
        } else {
            exists|consumed: int, written: int|
                {
                    &&& #[trigger] transduces(
                        before.place(),
                        before.pending(),
                        input,
                        old_output,
                        after.place(),
                        after.pending(),
                        new_output,
                        consumed,
                        written,
                    )
                    &&& r == (match after.place().stage {
                        Stage::Failed { error } => Err::<RawProgress, Error>(error),
                        _ => Ok(
                            RawProgress {
                                consumed: consumed as usize,
                                written: written as usize,
                                done: after.place().stage is Done && after.pending().len() == 0,
                            },
                        ),
                    })
                }
        }
    }

    open spec fn finish_post(
        before: Self,
        old_output: Seq<u8>,
        after: Self,
        new_output: Seq<u8>,
        r: Result<RawProgress, Error>,
    ) -> bool {
        &&& new_output == old_output
        &&& after.pending() == before.pending()
        &&& match before.place().stage {
            Stage::Failed { error } => {
                &&& r == Err::<RawProgress, Error>(Error::Corrupt)
                &&& after.place() == before.place()
            },
            Stage::Done => {
                &&& r == Ok::<RawProgress, Error>(idle(true))
                &&& after.place() == before.place()
            },
            _ => {
                &&& r == Err::<RawProgress, Error>(Error::UnexpectedEnd)
                &&& after.place() == before.place().failed(Error::UnexpectedEnd)
            },
        }
    }

    open spec fn reset_post(before: Self, after: Self) -> bool {
        after.place() == start(before.place().cap) && after.pending().len() == 0
    }

    fn raw_decode(&mut self, input: &[u8], output: &mut [u8]) -> (r: Result<RawProgress, Error>) {
        if let Phase::Failed { error } = self.phase {
            return Err(Error::Corrupt);
        }
        let ghost m = self.place();
        let ghost pending = self.pending();
        let ghost out0 = output@;
        let mut consumed: usize = 0;
        let mut written: usize = 0;
        proof {
            midway_start(m, pending, input@, out0);
        }
        loop
            invariant
                m == old(self).place(),
                pending == old(self).pending(),
                !(m.stage is Failed),
                out0 == old(output)@,
                self.inv(),
                consumed <= input@.len(),
                written <= out0.len(),
                output@.len() == out0.len(),
                midway(
                    m,
                    pending,
                    input@,
                    out0,
                    self.place(),
                    self.pending(),
                    output@,
                    consumed as int,
                    written as int,
                ),
            ensures
                transduces(
                    m,
                    pending,
                    input@,
                    out0,
                    self.place(),
                    self.pending(),
                    output@,
                    consumed as int,
                    written as int,
                ),
                output@.skip(written as int) == out0.skip(written as int),
            decreases input@.len() - consumed, self.queue@.len(),
        {
            if !self.queue.is_empty() {
                let ghost p = self.place();
                let ghost q = self.queue@;
                let ghost before = output@;
                let n: usize = self.queue.drain(output, written);
                proof {
                    midway_drain(
                        m,
                        pending,
                        input@,
                        out0,
                        p,
                        q,
                        before,
                        consumed as int,
                        written as int,
                        n as int,
                    );
                }
                assert(written + n <= output.len());
                written = written + n;
                if !self.queue.is_empty() {
                    proof {
                        midway_stop(
                            m,
                            pending,
                            input@,
                            out0,
                            self.place(),
                            self.pending(),
                            output@,
                            consumed as int,
                            written as int,
                        );
                    }
                    break;
                }
                continue;
            }
            let stop: bool = match self.phase {
                Phase::Done => true,
                Phase::Failed { error } => true,
                Phase::Stored { left } => written == output.len(),
                _ => false,
            };
            if stop || consumed == input.len() {
                proof {
                    midway_stop(
                        m,
                        pending,
                        input@,
                        out0,
                        self.place(),
                        self.pending(),
                        output@,
                        consumed as int,
                        written as int,
                    );
                }
                break;
            }
            proof {
                midway_take(
                    m,
                    pending,
                    input@,
                    out0,
                    self.place(),
                    self.pending(),
                    output@,
                    consumed as int,
                    written as int,
                );
            }
            let b = input[consumed];
            self.feed(b);
            consumed = consumed + 1;
        }
        match self.phase {
            Phase::Failed { error } => Err(error),
            Phase::Done => Ok(RawProgress { consumed, written, done: self.queue.is_empty() }),
            _ => Ok(RawProgress { consumed, written, done: false }),
        }
    }

    fn raw_finish(&mut self, output: &mut [u8]) -> (r: Result<RawProgress, Error>) {
        match self.phase {
            Phase::Failed { error } => Err(Error::Corrupt),
            Phase::Done => Ok(RawProgress { consumed: 0, written: 0, done: true }),
            _ => {
                self.fail(Error::UnexpectedEnd);
                Err(Error::UnexpectedEnd)
            },
        }
    }

    fn raw_reset(&mut self) {
        self.phase = Phase::Control;
        self.core = None;
        self.first = true;
        self.scratch.clear();
        self.queue.clear();
    }
}

} // verus!
