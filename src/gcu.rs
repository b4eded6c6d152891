//! The protocol client: command framing, echo consumption, reply classification, and the
//! typed operations built on them.

use vstd::prelude::*;
use crate::decimal::u16_of_text;
use crate::frame::{
    letter_cmd, letter_frame, read_cmd, read_frame, register, register_of, level_in_map,
    write_cmd, write_frame, BLOCK_LEN, PRESSURE_CMD, PULSE_CMD, QUIT_CMD, VERSION_CMD,
};
use crate::link::{line_config, LineConfig, Link, LinkError};
use crate::table::{
    csv_records, csv_text, decode_csv, encode_csv, leading_settings, lemma_rows_plain,
    lemma_rows_round_trip, plain_text, settings_from_rows, settings_of_rows, settings_rows,
    settings_to_rows,
};

verus! {

/// Why an operation failed.
#[derive(Clone, Copy, Debug, PartialEq, Eq, Structural)]
pub enum GcuError {
    /// The link failed or timed out.
    Io(LinkError),
    /// The device answered with its error status, or gave no data where data was expected.
    Protocol,
    /// A reply line was not UTF-8, or a number was not decimal.
    Parse,
    /// Settings text could not be read or written.
    Persistence,
    /// A reply line or a reply ran past the bound that the client reads.
    Unterminated,
    /// A setting holds a level or a value that no command frame can carry.
    OutOfRange,
}

/// One power level's complete register block.
#[derive(Clone, Copy, Debug, PartialEq, Eq, Structural)]
pub struct Setting {
    pub power_level: u16,
    pub high_pressure: u16,
    pub mid_pressure: u16,
    pub low_pressure: u16,
    pub high_pulse: u16,
    pub mid_pulse: u16,
    pub low_pulse: u16,
    pub high_slope: u16,
    pub low_slope: u16,
    pub volts: u16,
}

/// Field `k` of the register block, in register order.
pub open spec fn field_of(s: Setting, k: nat) -> u16 {
    if k == 0 {
        s.high_pressure
    } else if k == 1 {
        s.mid_pressure
    } else if k == 2 {
        s.low_pressure
    } else if k == 3 {
        s.high_pulse
    } else if k == 4 {
        s.mid_pulse
    } else if k == 5 {
        s.low_pulse
    } else if k == 6 {
        s.high_slope
    } else if k == 7 {
        s.low_slope
    } else {
        s.volts
    }
}

/// A setting with the given level and the nine register values in register order.
pub open spec fn setting_of(level: u16, w: Seq<u16>) -> Setting {
    Setting {
        power_level: level,
        high_pressure: w[0],
        mid_pressure: w[1],
        low_pressure: w[2],
        high_pulse: w[3],
        mid_pulse: w[4],
        low_pulse: w[5],
        high_slope: w[6],
        low_slope: w[7],
        volts: w[8],
    }
}

impl Setting {
    pub fn new(
        power_level: u16,
        high_pressure: u16,
        mid_pressure: u16,
        low_pressure: u16,
        high_pulse: u16,
        mid_pulse: u16,
        low_pulse: u16,
        high_slope: u16,
        low_slope: u16,
        volts: u16,
    ) -> (r: Setting)
        ensures
            r == (Setting {
                power_level,
                high_pressure,
                mid_pressure,
                low_pressure,
                high_pulse,
                mid_pulse,
                low_pulse,
                high_slope,
                low_slope,
                volts,
            }),
    {
        Setting {
            power_level,
            high_pressure,
            mid_pressure,
            low_pressure,
            high_pulse,
            mid_pulse,
            low_pulse,
            high_slope,
            low_slope,
            volts,
        }
    }

    /// Field `k` of the register block.
    pub fn field(&self, k: usize) -> (r: u16)
        requires
            k < BLOCK_LEN,
        ensures
            r == field_of(*self, k as nat),
    {
        if k == 0 {
            self.high_pressure
        } else if k == 1 {
            self.mid_pressure
        } else if k == 2 {
            self.low_pressure
        } else if k == 3 {
            self.high_pulse
        } else if k == 4 {
            self.mid_pulse
        } else if k == 5 {
            self.low_pulse
        } else if k == 6 {
            self.high_slope
        } else if k == 7 {
            self.low_slope
        } else {
            self.volts
        }
    }
}

/// Whether every field of `s` fits a write frame at its register.
pub open spec fn writable(s: Setting) -> bool {
    &&& level_in_map(s.power_level as nat)
    &&& forall|k: nat| k < 9 ==> #[trigger] field_of(s, k) < 10000
}

/// What the UTF-8 decoder makes of a byte string: its text, or nothing if it is not UTF-8.
pub uninterp spec fn utf8_text(b: Seq<u8>) -> Option<Seq<char>>;

/// Relies on std::str::from_utf8: whether the bytes are UTF-8, and the text they hold.
#[verifier::external_body]
fn decode_utf8(b: &[u8]) -> (r: Option<String>)
    ensures
        match r {
            Some(s) => utf8_text(b@) == Some(s@),
            None => utf8_text(b@) is None,
        },
{
    std::str::from_utf8(b).ok().map(String::from)
}

/// The terminator of a reply line.
pub const CR: u8 = 13;

/// The most bytes a reply line may hold before its terminator, unless set otherwise.
pub const MAX_LINE: u16 = 256;

/// The most lines a reply may hold, its status line included, unless set otherwise.
pub const MAX_LINES: u16 = 64;

/// Milliseconds of quiet before each command.
pub const SETTLE_MS: u64 = 200;

/// Milliseconds the device needs after it is enabled.
pub const POWER_UP_MS: u64 = 500;

/// Milliseconds a read waits for a byte.
pub const READ_TIMEOUT_MS: u64 = 1000;

/// `OK`
pub open spec fn ok_line() -> Seq<u8> {
    seq![79u8, 75u8]
}

/// `Error`
pub open spec fn error_line() -> Seq<u8> {
    seq![69u8, 114u8, 114u8, 111u8, 114u8]
}

/// Whether a line is one of the two status lines that end a reply.
pub open spec fn is_status(l: Seq<u8>) -> bool {
    l == ok_line() || l == error_line()
}

/// A complete reply: text lines, none of them a status line, then one status line.
pub open spec fn is_reply(lines: Seq<Seq<u8>>) -> bool {
    &&& lines.len() >= 1
    &&& is_status(lines.last())
    &&& forall|i: int| 0 <= i < lines.len() ==> !(#[trigger] lines[i]).contains(CR)
    &&& forall|i: int|
        0 <= i < lines.len() - 1 ==> !is_status(#[trigger] lines[i]) && utf8_text(lines[i]) is Some
}

/// The data of a reply: its last line before the status line, if it has one.
pub open spec fn payload_of(lines: Seq<Seq<u8>>) -> Option<Seq<u8>> {
    if lines.len() >= 2 {
        Some(lines[lines.len() - 2])
    } else {
        None
    }
}

/// A classified reply.
#[derive(Debug)]
pub struct Reply {
    /// The status line was `OK`.
    pub ok: bool,
    /// The last data line, if any.
    pub payload: Option<Vec<u8>>,
}

/// The bytes of an optional line.
pub open spec fn bytes_of(p: Option<Vec<u8>>) -> Option<Seq<u8>> {
    match p {
        Some(v) => Some(v@),
        None => None,
    }
}

/// Whether `r` is the classification of the reply `lines`.
pub open spec fn classifies(r: Reply, lines: Seq<Seq<u8>>) -> bool {
    &&& r.ok == (lines.last() == ok_line())
    &&& bytes_of(r.payload) == payload_of(lines)
}

/// A reply read as a number: the data line as a decimal `u16` after an `OK`.
pub open spec fn u16_outcome(lines: Seq<Seq<u8>>) -> Result<u16, GcuError> {
    if lines.last() != ok_line() {
        Err(GcuError::Protocol)
    } else {
        match payload_of(lines) {
            None => Err(GcuError::Protocol),
            Some(p) => match u16_of_text(p) {
                Some(v) => Ok(v),
                None => Err(GcuError::Parse),
            },
        }
    }
}

/// A reply read as text: the data line after an `OK`.
pub open spec fn text_outcome(lines: Seq<Seq<u8>>) -> Result<Seq<char>, GcuError> {
    if lines.last() != ok_line() {
        Err(GcuError::Protocol)
    } else {
        match payload_of(lines) {
            None => Err(GcuError::Protocol),
            Some(p) => match utf8_text(p) {
                Some(t) => Ok(t),
                None => Err(GcuError::Parse),
            },
        }
    }
}

/// The number a reply carries, or zero if it carries none.
pub open spec fn reply_value(lines: Seq<Seq<u8>>) -> u16 {
    match u16_outcome(lines) {
        Ok(v) => v,
        Err(_) => 0,
    }
}

/// The setting of `level` read from its nine replies, in register order.
pub open spec fn setting_read(level: nat, rs: Seq<Seq<Seq<u8>>>) -> Setting {
    setting_of(level as u16, Seq::new(9, |k: int| reply_value(rs[k])))
}

/// The power level of the `i`-th register that a settings read visits; `i % 9` is its field.
pub open spec fn read_level(i: nat) -> nat {
    i / 9 + 1
}

/// The commands of the first `n` register reads of a settings read.
pub open spec fn settings_reads(n: nat) -> Seq<u8>
    decreases n,
{
    if n == 0 {
        seq![]
    } else {
        let i = (n - 1) as nat;
        settings_reads(i) + read_frame(register_of(read_level(i), i % 9))
    }
}

/// The commands of the first `n` register writes of a setting.
pub open spec fn setting_writes(s: Setting, n: nat) -> Seq<u8>
    decreases n,
{
    if n == 0 {
        seq![]
    } else {
        let k = (n - 1) as nat;
        setting_writes(s, k) + write_frame(
            register_of(s.power_level as nat, k),
            field_of(s, k) as nat,
        )
    }
}

/// Whether `after` is `before` with one more reply.
pub open spec fn one_more(before: Seq<Seq<Seq<u8>>>, after: Seq<Seq<Seq<u8>>>) -> bool {
    after.len() == before.len() + 1 && after.drop_last() == before
}

/// The bytes of reply lines as read: each line followed by its terminator.
pub open spec fn joined(lines: Seq<Seq<u8>>) -> Seq<u8>
    decreases lines.len(),
{
    if lines.len() == 0 {
        Seq::empty()
    } else {
        joined(lines.drop_last()) + lines.last().push(CR)
    }
}

/// What follows `a` in `b`.
pub open spec fn added<T>(a: Seq<T>, b: Seq<T>) -> Seq<T> {
    b.subrange(a.len() as int, b.len() as int)
}

/// Whether every line is a data line: no status line, and UTF-8.
pub open spec fn all_data(lines: Seq<Seq<u8>>) -> bool {
    forall|i: int|
        0 <= i < lines.len() ==> !is_status(#[trigger] lines[i]) && utf8_text(lines[i]) is Some
}

/// Whether the lines end in one that is no status line and not UTF-8, after data lines.
pub open spec fn bad_last_line(lines: Seq<Seq<u8>>) -> bool {
    &&& lines.len() >= 1
    &&& all_data(lines.drop_last())
    &&& !is_status(lines.last())
    &&& utf8_text(lines.last()) is None
}

/// What one reply line does to a reply being read.
pub enum LineStep {
    /// A status line: the reply is complete.
    Done(Reply),
    /// A data line: it becomes the payload, and reading goes on.
    More(Option<Vec<u8>>),
    /// A line that is neither a status line nor UTF-8.
    NotText,
}

/// Whether `r` is what `line` does to a reply whose payload so far is `payload`.
pub open spec fn line_step(payload: Option<Seq<u8>>, line: Seq<u8>, r: LineStep) -> bool {
    if is_status(line) {
        r matches LineStep::Done(reply) && reply.ok == (line == ok_line()) && bytes_of(
            reply.payload,
        ) == payload
    } else if utf8_text(line) is Some {
        r matches LineStep::More(p) && bytes_of(p) == Some(line)
    } else {
        r is NotText
    }
}

/// Classifies one reply line: `OK` or `Error` completes the reply with the payload so far;
/// any other UTF-8 line becomes the payload; anything else is not text.
pub fn next_line(payload: Option<Vec<u8>>, line: Vec<u8>) -> (r: LineStep)
    ensures
        line_step(bytes_of(payload), line@, r),
{
    let ok = is_ok(&line);
    if ok || is_error(&line) {
        return LineStep::Done(Reply { ok, payload });
    }
    match decode_utf8(line.as_slice()) {
        Some(_) => LineStep::More(Some(line)),
        None => LineStep::NotText,
    }
}

/// The error of a result, if it is one.
pub open spec fn err_of<T>(r: Result<T, GcuError>) -> Option<GcuError> {
    match r {
        Ok(_) => None,
        Err(e) => Some(e),
    }
}

/// `a + b` starts with `a`, and `b` follows it.
pub proof fn lemma_extends<T>(a: Seq<T>, b: Seq<T>)
    ensures
        extends(a, a + b),
        added(a, a + b) == b,
{
    assert((a + b).subrange(0, a.len() as int) =~= a);
    assert(added(a, a + b) =~= b);
}

/// Every sequence starts with itself.
pub proof fn lemma_extends_refl<T>(a: Seq<T>)
    ensures
        extends(a, a),
{
    assert(a.subrange(0, a.len() as int) =~= a);
}

/// Starting with is transitive.
pub proof fn lemma_extends_trans<T>(a: Seq<T>, b: Seq<T>, c: Seq<T>)
    requires
        extends(a, b),
        extends(b, c),
    ensures
        extends(a, c),
{
    assert(c.subrange(0, a.len() as int) =~= b.subrange(0, a.len() as int));
}

/// Whether `b` starts with `a`.
pub open spec fn extends<T>(a: Seq<T>, b: Seq<T>) -> bool {
    a.len() <= b.len() && b.subrange(0, a.len() as int) == a
}

/// The client of one device, over a link it owns.
pub struct Gcu<L: Link> {
    link: L,
    settings: Vec<Setting>,
    sent: Ghost<Seq<u8>>,
    echo: Ghost<Seq<u8>>,
    replies: Ghost<Seq<Seq<Seq<u8>>>>,
    signal: Ghost<Option<bool>>,
    received: Ghost<Seq<u8>>,
    heard: Ghost<Seq<Seq<u8>>>,
    faults: Ghost<Seq<LinkError>>,
    max_line: u16,
    max_lines: u16,
    written: Ghost<Seq<u8>>,
    line_set: Ghost<LineConfig>,
    timeout_set: Ghost<u64>,
}

impl<L: Link> Gcu<L> {
    /// Every byte handed to the link, in order.
    pub closed spec fn sent(&self) -> Seq<u8> {
        self.sent@
    }

    /// Every echo byte read back.
    pub closed spec fn echoed(&self) -> Seq<u8> {
        self.echo@
    }

    /// Every complete reply read, each as its lines.
    pub closed spec fn replies(&self) -> Seq<Seq<Seq<u8>>> {
        self.replies@
    }

    /// The staged settings.
    pub closed spec fn staged(&self) -> Seq<Setting> {
        self.settings@
    }

    /// The level the enable line was last driven to, if it was.
    pub closed spec fn signal(&self) -> Option<bool> {
        self.signal@
    }

    /// Every reply byte read, terminators included; echo bytes are not among them.
    pub closed spec fn received(&self) -> Seq<u8> {
        self.received@
    }

    /// The most bytes read for one reply line before giving up.
    pub closed spec fn line_limit(&self) -> nat {
        self.max_line as nat
    }

    /// The most lines, the status line included, read for one reply before giving up.
    pub closed spec fn reply_limit(&self) -> nat {
        self.max_lines as nat
    }

    /// Every byte the link accepted for writing, in order.
    pub closed spec fn written(&self) -> Seq<u8> {
        self.written@
    }

    /// The line settings handed to the link.
    pub closed spec fn line_settings(&self) -> LineConfig {
        self.line_set@
    }

    /// The read timeout, in milliseconds, handed to the link.
    pub closed spec fn read_timeout(&self) -> u64 {
        self.timeout_set@
    }

    /// Every error the link reported, in order.
    pub closed spec fn faults(&self) -> Seq<LinkError> {
        self.faults@
    }

    /// Every complete reply line read, in order, whether or not it ended up in a reply.
    pub closed spec fn heard(&self) -> Seq<Seq<u8>> {
        self.heard@
    }

    /// What holds of an exchange that sent `cmd_len` bytes and ended in `err`, whatever the
    /// device did: a short echo fails with `Io` and reads no reply; a call that records no
    /// reply fails; a reply line that is no status line and not UTF-8 fails with `Parse`;
    /// a recorded reply is exactly the reply bytes read, and nothing after its status line is.
    pub open spec fn exchange(&self, after: &Self, cmd_len: nat, err: Option<GcuError>) -> bool {
        &&& after.echoed().len() < self.echoed().len() + cmd_len ==> {
            &&& err matches Some(e) && e is Io
            &&& after.replies() == self.replies()
            &&& after.heard() == self.heard()
        }
        &&& after.replies() == self.replies() ==> (err matches Some(e) && (e is Io || e is Parse
            || e is Unterminated))
        &&& bad_last_line(added(self.heard(), after.heard())) ==> err == Some(GcuError::Parse)
        &&& bad_last_line(added(self.heard(), after.heard())) ==> after.received()
            == self.received() + joined(added(self.heard(), after.heard()))
        &&& (after.replies() == self.replies() && err == Some(GcuError::Parse)) ==> bad_last_line(
            added(self.heard(), after.heard()),
        )
        &&& one_more(self.replies(), after.replies()) ==> {
            &&& after.received() == self.received() + joined(after.replies().last())
            &&& after.heard() == self.heard() + after.replies().last()
            &&& after.echoed().len() == self.echoed().len() + cmd_len
        }
        &&& err is None ==> after.echoed().len() == self.echoed().len() + cmd_len
    }

    /// Sets up the line (9600 baud, 8N1, no flow control, one-second reads) and takes it over.
    pub fn new(link: L) -> (r: Result<Self, GcuError>)
        ensures
            r matches Ok(g) ==> {
                &&& g.sent() == Seq::<u8>::empty()
                &&& g.echoed() == Seq::<u8>::empty()
                &&& g.replies() == Seq::<Seq<Seq<u8>>>::empty()
                &&& g.staged() == Seq::<Setting>::empty()
                &&& g.signal() is None
                &&& g.written() == Seq::<u8>::empty()
                &&& g.line_settings() == (LineConfig {
                    baud_rate: 9600,
                    data_bits: 8,
                    parity: false,
                    stop_bits: 1,
                    flow_control: false,
                })
                &&& g.read_timeout() == READ_TIMEOUT_MS
                &&& g.line_limit() == MAX_LINE
                &&& g.reply_limit() == MAX_LINES
            },
            r matches Err(e) ==> e is Io,
    {
        let mut link = link;
        let config = line_config();
        match link.configure(&config) {
            Ok(()) => {},
            Err(e) => {
                return Err(GcuError::Io(e));
            },
        }
        match link.set_timeout_ms(READ_TIMEOUT_MS) {
            Ok(()) => {},
            Err(e) => {
                return Err(GcuError::Io(e));
            },
        }
        Ok(Gcu {
            link,
            settings: Vec::new(),
            sent: Ghost(Seq::empty()),
            echo: Ghost(Seq::empty()),
            replies: Ghost(Seq::empty()),
            signal: Ghost(None),
            received: Ghost(Seq::empty()),
            heard: Ghost(Seq::empty()),
            faults: Ghost(Seq::empty()),
            max_line: MAX_LINE,
            max_lines: MAX_LINES,
            written: Ghost(Seq::empty()),
            line_set: Ghost(config),
            timeout_set: Ghost(READ_TIMEOUT_MS),
        })
    }

    /// Sets how many bytes a reply line, and how many lines a reply (its status line included),
    /// may run to before reading gives up with `Unterminated`.
    pub fn set_limits(&mut self, max_line: u16, max_lines: u16)
        ensures
            final(self).line_limit() == max_line,
            final(self).reply_limit() == max_lines,
            final(self).sent() == old(self).sent(),
            final(self).echoed() == old(self).echoed(),
            final(self).replies() == old(self).replies(),
            final(self).staged() == old(self).staged(),
            final(self).signal() == old(self).signal(),
            final(self).received() == old(self).received(),
            final(self).heard() == old(self).heard(),
            final(self).faults() == old(self).faults(),
    {
        self.max_line = max_line;
        self.max_lines = max_lines;
    }

    /// The link the client talks over.
    pub fn link(&self) -> &L {
        &self.link
    }

    /// The staged settings.
    pub fn settings(&self) -> (r: &Vec<Setting>)
        ensures
            r@ == self.staged(),
    {
        &self.settings
    }

    /// Reads bytes up to a carriage return and returns those before it. Gives up after
    /// `line_limit()` bytes without one.
    fn read_line(&mut self) -> (r: Result<Vec<u8>, GcuError>)
        ensures
            final(self).sent() == old(self).sent(),
            final(self).echoed() == old(self).echoed(),
            final(self).replies() == old(self).replies(),
            final(self).staged() == old(self).staged(),
            final(self).signal() == old(self).signal(),
            final(self).heard() == old(self).heard(),
            final(self).line_limit() == old(self).line_limit(),
            final(self).reply_limit() == old(self).reply_limit(),
            extends(old(self).received(), final(self).received()),
            r matches Ok(l) ==> {
                &&& !l@.contains(CR)
                &&& final(self).received() == old(self).received() + l@.push(CR)
            },
            r is Err ==> !added(old(self).received(), final(self).received()).contains(CR),
            r matches Err(e) ==> e is Io || e is Unterminated,
            r matches Err(GcuError::Io(e)) ==> final(self).faults() == old(self).faults().push(e),
            !(r matches Err(GcuError::Io(_))) ==> final(self).faults() == old(self).faults(),
            r matches Err(e) && e is Unterminated ==> added(
                old(self).received(),
                final(self).received(),
            ).len() == old(self).line_limit() + 1,
    {
        let mut line: Vec<u8> = Vec::new();
        assert(self.received@ =~= old(self).received@ + line@);
        while line.len() <= self.max_line as usize
            invariant
                self.sent@ == old(self).sent@,
                self.echo@ == old(self).echo@,
                self.replies@ == old(self).replies@,
                self.settings@ == old(self).settings@,
                self.signal@ == old(self).signal@,
                self.heard@ == old(self).heard@,
                self.faults@ == old(self).faults@,
                self.received@ == old(self).received@ + line@,
                self.max_line == old(self).max_line,
                self.max_lines == old(self).max_lines,
                line.len() <= self.max_line + 1,
                !line@.contains(CR),
            decreases self.max_line + 1 - line.len(),
        {
            match self.link.read_byte() {
                Ok(b) => {
                    self.received = Ghost(self.received@.push(b));
                    if b == CR {
                        assert(self.received@ =~= old(self).received@ + line@.push(CR));
                        proof {
                            lemma_extends(old(self).received@, line@.push(CR));
                        }
                        return Ok(line);
                    }
                    line.push(b);
                    assert(self.received@ =~= old(self).received@ + line@);
                    assert forall|i: int| 0 <= i < line@.len() implies line@[i] != CR by {
                        if i < line@.len() - 1 {
                            assert(line@[i] == line@.drop_last()[i]);
                        }
                    }
                },
                Err(e) => {
                    proof {
                        lemma_extends(old(self).received@, line@);
                    }
                    self.faults = Ghost(self.faults@.push(e));
                    return Err(GcuError::Io(e));
                },
            }
        }
        proof {
            lemma_extends(old(self).received@, line@);
        }
        Err(GcuError::Unterminated)
    }

    /// Reads reply lines until a status line, keeping the last data line. Gives up after
    /// `reply_limit()` lines without a status line.
    pub fn fetch_response(&mut self) -> (r: Result<Reply, GcuError>)
        ensures
            final(self).sent() == old(self).sent(),
            final(self).echoed() == old(self).echoed(),
            final(self).staged() == old(self).staged(),
            final(self).signal() == old(self).signal(),
            extends(old(self).heard(), final(self).heard()),
            final(self).heard() == old(self).heard() + added(old(self).heard(), final(self).heard()),
            r matches Ok(reply) ==> {
                &&& one_more(old(self).replies(), final(self).replies())
                &&& is_reply(final(self).replies().last())
                &&& final(self).replies().last() == added(old(self).heard(), final(self).heard())
                &&& classifies(reply, final(self).replies().last())
            },
            r is Err ==> final(self).replies() == old(self).replies(),
            r matches Err(e) ==> e is Io || e is Parse || e is Unterminated,
            r matches Err(GcuError::Io(e)) ==> final(self).faults() == old(self).faults().push(e),
            !(r matches Err(GcuError::Io(_))) ==> final(self).faults() == old(self).faults(),
            (r matches Err(e) && e is Parse) <==> bad_last_line(
                added(old(self).heard(), final(self).heard()),
            ),
            r matches Err(e) && !(e is Parse) ==> all_data(
                added(old(self).heard(), final(self).heard()),
            ),
            extends(
                old(self).received() + joined(added(old(self).heard(), final(self).heard())),
                final(self).received(),
            ),
            r is Ok || (r matches Err(e) && e is Parse) ==> final(self).received() == old(
                self,
            ).received() + joined(added(old(self).heard(), final(self).heard())),
            r matches Err(e) && e is Unterminated ==> added(old(self).heard(), final(self).heard()).len()
                == old(self).reply_limit() || added(old(self).received(), final(self).received()).len()
                > old(self).line_limit(),
    {
        let ghost h0 = self.heard@;
        let mut payload: Option<Vec<u8>> = None;
        proof {
            lemma_extends(old(self).received@, Seq::<u8>::empty());
        }
        let mut n: usize = 0;
        assert(self.heard@ =~= h0 + Seq::<Seq<u8>>::empty());
        assert(added(h0, self.heard@) =~= Seq::<Seq<u8>>::empty());
        assert(joined(added(h0, self.heard@)) =~= Seq::<u8>::empty());
        assert(self.received@ =~= old(self).received@ + joined(added(h0, self.heard@)));
        assert(self.received@ =~= self.received@ + Seq::<u8>::empty());
        proof {
            lemma_extends(h0, Seq::<Seq<u8>>::empty());
            lemma_extends(self.received@, Seq::<u8>::empty());
        }
        while n < self.max_lines as usize
            invariant
                h0 == old(self).heard@,
                self.faults@ == old(self).faults@,
                self.sent@ == old(self).sent@,
                self.echo@ == old(self).echo@,
                self.replies@ == old(self).replies@,
                self.settings@ == old(self).settings@,
                self.signal@ == old(self).signal@,
                extends(h0, self.heard@),
                self.heard@ == h0 + added(h0, self.heard@),
                extends(old(self).received@, self.received@),
                self.received@ == old(self).received@ + joined(added(h0, self.heard@)),
                added(h0, self.heard@).len() == n,
                self.max_line == old(self).max_line,
                self.max_lines == old(self).max_lines,
                n <= self.max_lines,
                forall|i: int|
                    0 <= i < n ==> !(#[trigger] added(h0, self.heard@)[i]).contains(CR),
                all_data(added(h0, self.heard@)),
                bytes_of(payload) == (if n == 0 {
                    None
                } else {
                    Some(added(h0, self.heard@).last())
                }),
            decreases self.max_lines - n,
        {
            let ghost lines = added(h0, self.heard@);
            let ghost rec = self.received@;
            let line = match self.read_line() {
                Ok(l) => l,
                Err(e) => {
                    proof {
                        lemma_extends_trans(old(self).received@, rec, self.received@);
                    }
                    return Err(e);
                },
            };
            proof {
                lemma_extends_trans(old(self).received@, rec, self.received@);
            }
            let ghost full = lines.push(line@);
            let ghost hprev = self.heard@;
            self.heard = Ghost(self.heard@.push(line@));
            assert(added(h0, self.heard@) =~= full);
            assert(self.heard@ =~= h0 + full);
            assert(full.drop_last() =~= lines);
            assert(self.received@ =~= old(self).received@ + joined(full));
            proof {
                assert(self.heard@ =~= hprev + seq![line@]);
                lemma_extends(hprev, seq![line@]);
                lemma_extends_trans(h0, hprev, self.heard@);
            }
            assert forall|i: int| 0 <= i < full.len() - 1 implies full[i] == lines[i] by {}
            match next_line(payload, line) {
                LineStep::Done(reply) => {
                    assert(payload_of(full) == bytes_of(reply.payload)) by {
                        if n > 0 {
                            assert(full[full.len() - 2] == lines.last());
                        }
                    }
                    assert forall|i: int| 0 <= i < full.len() - 1 implies !is_status(
                        #[trigger] full[i],
                    ) && utf8_text(full[i]) is Some by {
                        assert(full[i] == lines[i]);
                    }
                    assert forall|i: int| 0 <= i < full.len() implies !(
                    #[trigger] full[i]).contains(CR) by {
                        if i < full.len() - 1 {
                            assert(full[i] == lines[i]);
                        }
                    }
                    proof {
                        lemma_extends_refl(self.received@);
                    }
                    self.replies = Ghost(self.replies@.push(full));
                    assert(self.replies@.drop_last() =~= old(self).replies@);
                    return Ok(reply);
                },
                LineStep::NotText => {
                    proof {
                        lemma_extends_refl(self.received@);
                    }
                    return Err(GcuError::Parse);
                },
                LineStep::More(p) => {
                    payload = p;
                    assert forall|i: int| 0 <= i < full.len() implies !(
                    #[trigger] full[i]).contains(CR) by {
                        if i < full.len() - 1 {
                            assert(full[i] == lines[i]);
                        }
                    }
                    assert(all_data(full)) by {
                        assert forall|i: int| 0 <= i < full.len() implies !is_status(
                            #[trigger] full[i],
                        ) && utf8_text(full[i]) is Some by {
                            if i < full.len() - 1 {
                                assert(full[i] == lines[i]);
                            }
                        }
                    }
                },
            }
            n = n + 1;
        }
        proof {
            lemma_extends_refl(self.received@);
        }
        Err(GcuError::Unterminated)
    }

    /// Waits for the line to settle, sends `cmd`, and reads back and drops its echo.
    pub fn send_cmd(&mut self, cmd: &[u8]) -> (r: Result<(), GcuError>)
        ensures
            final(self).sent() == old(self).sent() + cmd@,
            final(self).replies() == old(self).replies(),
            final(self).staged() == old(self).staged(),
            final(self).signal() == old(self).signal(),
            final(self).heard() == old(self).heard(),
            final(self).received() == old(self).received(),
            extends(old(self).echoed(), final(self).echoed()),
            r is Ok ==> final(self).echoed().len() == old(self).echoed().len() + cmd@.len(),
            r is Err && cmd@.len() > 0 ==> final(self).echoed().len() < old(self).echoed().len()
                + cmd@.len(),
            r matches Err(e) ==> e is Io,
            r matches Err(GcuError::Io(e)) ==> final(self).faults() == old(self).faults().push(e),
            r is Ok ==> final(self).faults() == old(self).faults(),
            r is Ok ==> final(self).written() == old(self).written() + cmd@,
            final(self).written() == old(self).written() + cmd@ || {
                &&& r is Err
                &&& final(self).written() == old(self).written()
                &&& final(self).echoed() == old(self).echoed()
            },
    {
        self.link.pause_ms(SETTLE_MS);
        self.sent = Ghost(self.sent@ + cmd@);
        assert(self.echo@.subrange(0, old(self).echo@.len() as int) =~= old(self).echo@);
        match self.link.write_all(cmd) {
            Ok(()) => {},
            Err(e) => {
                self.faults = Ghost(self.faults@.push(e));
                return Err(GcuError::Io(e));
            },
        }
        self.written = Ghost(self.written@ + cmd@);
        let mut i: usize = 0;
        while i < cmd.len()
            invariant
                self.sent@ == old(self).sent@ + cmd@,
                self.replies@ == old(self).replies@,
                self.settings@ == old(self).settings@,
                self.signal@ == old(self).signal@,
                self.heard@ == old(self).heard@,
                self.received@ == old(self).received@,
                self.faults@ == old(self).faults@,
                self.written@ == old(self).written@ + cmd@,
                i <= cmd.len(),
                self.echo@.len() == old(self).echo@.len() + i,
                self.echo@.subrange(0, old(self).echo@.len() as int) == old(self).echo@,
            decreases cmd.len() - i,
        {
            match self.link.read_byte() {
                Ok(b) => {
                    let ghost before = self.echo@;
                    self.echo = Ghost(self.echo@.push(b));
                    assert(self.echo@.subrange(0, old(self).echo@.len() as int)
                        =~= before.subrange(0, old(self).echo@.len() as int));
                },
                Err(e) => {
                    self.faults = Ghost(self.faults@.push(e));
                    return Err(GcuError::Io(e));
                },
            }
            i = i + 1;
        }
        Ok(())
    }

    /// Sends `cmd` and reads its reply as a decimal `u16`.
    fn read_u16(&mut self, cmd: &[u8]) -> (r: Result<u16, GcuError>)
        ensures
            final(self).sent() == old(self).sent() + cmd@,
            final(self).staged() == old(self).staged(),
            final(self).signal() == old(self).signal(),
            final(self).replies() == old(self).replies() || one_more(
                old(self).replies(),
                final(self).replies(),
            ),
            one_more(old(self).replies(), final(self).replies()) ==> {
                &&& is_reply(final(self).replies().last())
                &&& r == u16_outcome(final(self).replies().last())
            },
            r is Ok ==> one_more(old(self).replies(), final(self).replies()),
            old(self).exchange(final(self), cmd@.len(), err_of(r)),
    {
        match self.send_cmd(cmd) {
            Ok(()) => {},
            Err(e) => {
                return Err(e);
            },
        }
        let reply = match self.fetch_response() {
            Ok(reply) => reply,
            Err(e) => {
                return Err(e);
            },
        };
        reply_u16(&reply)
    }

    /// Reads the register at `address`.
    pub fn read_word(&mut self, address: u8) -> (r: Result<u16, GcuError>)
        requires
            address < 100,
        ensures
            final(self).sent() == old(self).sent() + read_frame(address as nat),
            final(self).staged() == old(self).staged(),
            final(self).signal() == old(self).signal(),
            final(self).replies() == old(self).replies() || one_more(
                old(self).replies(),
                final(self).replies(),
            ),
            one_more(old(self).replies(), final(self).replies()) ==> {
                &&& is_reply(final(self).replies().last())
                &&& r == u16_outcome(final(self).replies().last())
            },
            r is Ok ==> one_more(old(self).replies(), final(self).replies()),
            old(self).exchange(final(self), 7, err_of(r)),
    {
        let cmd = read_cmd(address);
        self.read_u16(cmd.as_slice())
    }

    /// Reads the current pressure.
    pub fn pressure(&mut self) -> (r: Result<u16, GcuError>)
        ensures
            final(self).sent() == old(self).sent() + letter_frame(PRESSURE_CMD),
            final(self).staged() == old(self).staged(),
            final(self).signal() == old(self).signal(),
            final(self).replies() == old(self).replies() || one_more(
                old(self).replies(),
                final(self).replies(),
            ),
            one_more(old(self).replies(), final(self).replies()) ==> {
                &&& is_reply(final(self).replies().last())
                &&& r == u16_outcome(final(self).replies().last())
            },
            r is Ok ==> one_more(old(self).replies(), final(self).replies()),
            old(self).exchange(final(self), 7, err_of(r)),
    {
        let cmd = letter_cmd(PRESSURE_CMD);
        self.read_u16(cmd.as_slice())
    }

    /// Reads the current pulse duration.
    pub fn pulse_duration(&mut self) -> (r: Result<u16, GcuError>)
        ensures
            final(self).sent() == old(self).sent() + letter_frame(PULSE_CMD),
            final(self).staged() == old(self).staged(),
            final(self).signal() == old(self).signal(),
            final(self).replies() == old(self).replies() || one_more(
                old(self).replies(),
                final(self).replies(),
            ),
            one_more(old(self).replies(), final(self).replies()) ==> {
                &&& is_reply(final(self).replies().last())
                &&& r == u16_outcome(final(self).replies().last())
            },
            r is Ok ==> one_more(old(self).replies(), final(self).replies()),
            old(self).exchange(final(self), 7, err_of(r)),
    {
        let cmd = letter_cmd(PULSE_CMD);
        self.read_u16(cmd.as_slice())
    }

    /// Reads the firmware version text.
    pub fn version(&mut self) -> (r: Result<String, GcuError>)
        ensures
            final(self).sent() == old(self).sent() + letter_frame(VERSION_CMD),
            final(self).staged() == old(self).staged(),
            final(self).signal() == old(self).signal(),
            final(self).replies() == old(self).replies() || one_more(
                old(self).replies(),
                final(self).replies(),
            ),
            one_more(old(self).replies(), final(self).replies()) ==> {
                &&& is_reply(final(self).replies().last())
                &&& text_view(r) == text_outcome(final(self).replies().last())
            },
            r is Ok ==> one_more(old(self).replies(), final(self).replies()),
            old(self).exchange(final(self), 7, err_of(r)),
    {
        let cmd = letter_cmd(VERSION_CMD);
        match self.send_cmd(cmd.as_slice()) {
            Ok(()) => {},
            Err(e) => {
                return Err(e);
            },
        }
        let reply = match self.fetch_response() {
            Ok(reply) => reply,
            Err(e) => {
                return Err(e);
            },
        };
        reply_text(&reply)
    }

    /// Writes `data` to the register at `address`. The reply is read to its status line and
    /// dropped: a device error status does not fail the write.
    pub fn write_word(&mut self, address: u8, data: u16) -> (r: Result<(), GcuError>)
        requires
            address < 100,
            data < 10000,
        ensures
            final(self).sent() == old(self).sent() + write_frame(address as nat, data as nat),
            final(self).staged() == old(self).staged(),
            final(self).signal() == old(self).signal(),
            final(self).replies() == old(self).replies() || one_more(
                old(self).replies(),
                final(self).replies(),
            ),
            r is Ok <==> one_more(old(self).replies(), final(self).replies()),
            r is Ok ==> is_reply(final(self).replies().last()),
            r matches Err(e) ==> e is Io || e is Parse || e is Unterminated,
            old(self).exchange(final(self), 7, err_of(r)),
    {
        let cmd = write_cmd(address, data);
        match self.send_cmd(cmd.as_slice()) {
            Ok(()) => {},
            Err(e) => {
                return Err(e);
            },
        }
        match self.fetch_response() {
            Ok(_) => Ok(()),
            Err(e) => Err(e),
        }
    }

    /// Drives the enable line high, then waits for the device to power up.
    pub fn connect(&mut self) -> (r: Result<(), GcuError>)
        ensures
            final(self).sent() == old(self).sent(),
            final(self).replies() == old(self).replies(),
            final(self).staged() == old(self).staged(),
            r is Ok ==> final(self).signal() == Some(true),
            r matches Err(e) ==> e is Io && final(self).signal() == old(self).signal(),
            final(self).echoed() == old(self).echoed(),
            final(self).received() == old(self).received(),
            final(self).heard() == old(self).heard(),
            final(self).written() == old(self).written(),
            r matches Err(GcuError::Io(e)) ==> final(self).faults() == old(self).faults().push(e),
            r is Ok ==> final(self).faults() == old(self).faults(),
    {
        match self.link.set_signal(true) {
            Ok(()) => {},
            Err(e) => {
                self.faults = Ghost(self.faults@.push(e));
                return Err(GcuError::Io(e));
            },
        }
        self.signal = Ghost(Some(true));
        self.link.pause_ms(POWER_UP_MS);
        Ok(())
    }

    /// Sends the quit command, reads its reply and drops what it says, then drives the enable
    /// line low. A failed exchange leaves the enable line as it was.
    pub fn disconnect(&mut self) -> (r: Result<(), GcuError>)
        ensures
            final(self).sent() == old(self).sent() + letter_frame(QUIT_CMD),
            final(self).staged() == old(self).staged(),
            old(self).exchange(final(self), 7, err_of(r)),
            r is Ok ==> {
                &&& one_more(old(self).replies(), final(self).replies())
                &&& is_reply(final(self).replies().last())
                &&& final(self).signal() == Some(false)
            },
            r is Err ==> final(self).signal() == old(self).signal(),
            r matches Err(e) ==> e is Io || e is Parse || e is Unterminated,
    {
        let cmd = letter_cmd(QUIT_CMD);
        match self.send_cmd(cmd.as_slice()) {
            Ok(()) => {},
            Err(e) => {
                return Err(e);
            },
        }
        match self.fetch_response() {
            Ok(_) => {},
            Err(e) => {
                return Err(e);
            },
        }
        match self.link.set_signal(false) {
            Ok(()) => {},
            Err(e) => {
                return Err(GcuError::Io(e));
            },
        }
        self.signal = Ghost(Some(false));
        Ok(())
    }

    /// The staged settings as CSV text: a header row naming the fields, then one row per
    /// setting in staging order; no rows at all when nothing is staged.
    pub fn serialize_settings(&self) -> (r: Result<Vec<u8>, GcuError>)
        ensures
            r matches Ok(t) && t@ == csv_text(settings_rows(self.staged())),
            r matches Ok(t) && t@ == plain_text(settings_rows(self.staged())),
    {
        let rows = settings_to_rows(&self.settings);
        proof {
            lemma_rows_plain(self.settings@);
        }
        Ok(encode_csv(&rows))
    }

    /// Stages, after those already staged, the settings that CSV text holds: one per row after
    /// the header row, each field found under its name. At the first row that cannot be read
    /// the call fails, and the settings of the rows before it stay staged.
    pub fn deserialize_settings(&mut self, text: &[u8]) -> (r: Result<(), GcuError>)
        ensures
            final(self).sent() == old(self).sent(),
            final(self).echoed() == old(self).echoed(),
            final(self).replies() == old(self).replies(),
            final(self).signal() == old(self).signal(),
            match csv_records(text@) {
                Some(rows) => {
                    &&& final(self).staged() == old(self).staged() + leading_settings(rows)
                    &&& (r is Ok <==> settings_of_rows(rows) is Some)
                    &&& r is Err ==> r == persistence_failure()
                },
                None => r == persistence_failure() && final(self).staged() == old(self).staged(),
            },
            forall|ss: Seq<Setting>|
                #[trigger] plain_text(settings_rows(ss)) == text@ ==> r is Ok && final(self).staged()
                    == old(self).staged() + ss,
    {
        let rows = match decode_csv(text) {
            Some(rows) => rows,
            None => {
                assert forall|ss: Seq<Setting>| #[trigger] plain_text(settings_rows(ss)) == text@
                    implies false by {
                    lemma_rows_plain(ss);
                }
                return Err(GcuError::Persistence);
            },
        };
        let (mut v, ok) = settings_from_rows(&rows);
        assert forall|ss: Seq<Setting>| #[trigger] plain_text(settings_rows(ss)) == text@ implies ok
            && v@ == ss by {
            lemma_rows_plain(ss);
            lemma_rows_round_trip(ss);
        }
        self.settings.append(&mut v);
        if ok {
            Ok(())
        } else {
            Err(GcuError::Persistence)
        }
    }

    /// Reads the nine registers of power levels 1, 2 and 3 in register order, and stages one
    /// setting per level. A failure stops the batch; the levels read before it stay staged.
    #[verifier::spinoff_prover]
    #[verifier::rlimit(40)]
    pub fn read_settings(&mut self) -> (r: Result<(), GcuError>)
        ensures
            final(self).signal() == old(self).signal(),
            extends(old(self).staged(), final(self).staged()),
            extends(old(self).replies(), final(self).replies()),
            r is Ok ==> {
                let o = old(self).replies().len() as int;
                let os = old(self).staged().len() as int;
                &&& final(self).sent() == old(self).sent() + settings_reads(27)
                &&& final(self).replies().len() == o + 27
                &&& final(self).staged().len() == os + 3
                &&& forall|t: int|
                    0 <= t < 27 ==> u16_outcome(#[trigger] final(self).replies()[o + t]) is Ok
                &&& forall|j: int|
                    0 <= j < 3 ==> #[trigger] final(self).staged()[os + j] == setting_read(
                        (j + 1) as nat,
                        final(self).replies().subrange(o + 9 * j, o + 9 * j + 9),
                    )
            },
            r is Err ==> exists|m: nat|
                {
                    let o = old(self).replies().len() as int;
                    &&& 1 <= m <= 27
                    &&& final(self).sent() == old(self).sent() + #[trigger] settings_reads(m)
                    &&& final(self).staged() == old(self).staged() + Seq::new(
                        ((m - 1) / 9) as nat,
                        |j: int|
                            setting_read(
                                (j + 1) as nat,
                                final(self).replies().subrange(o + 9 * j, o + 9 * j + 9),
                            ),
                    )
                },
    {
        let ghost o = self.replies@.len() as int;
        let ghost os = self.settings@.len() as int;
        let mut words: Vec<u16> = Vec::new();
        let mut i: usize = 0;
        assert(self.settings@.subrange(0, os) =~= self.settings@);
        assert(self.replies@.subrange(0, o) =~= self.replies@);
        while i < 27
            invariant
                o == old(self).replies@.len(),
                os == old(self).settings@.len(),
                i <= 27,
                self.signal@ == old(self).signal@,
                self.sent@ == old(self).sent@ + settings_reads(i as nat),
                self.replies@.len() == o + i,
                self.replies@.subrange(0, o) == old(self).replies@,
                forall|t: int|
                    0 <= t < i ==> u16_outcome(#[trigger] self.replies@[o + t]) is Ok,
                words@.len() == i % 9,
                forall|k: int|
                    0 <= k < words@.len() ==> words@[k] == reply_value(
                        #[trigger] self.replies@[o + i - words@.len() + k],
                    ),
                self.settings@.len() == os + i / 9,
                self.settings@.subrange(0, os) == old(self).settings@,
                forall|j: int|
                    0 <= j < i / 9 ==> #[trigger] self.settings@[os + j] == setting_read(
                        (j + 1) as nat,
                        self.replies@.subrange(o + 9 * j, o + 9 * j + 9),
                    ),
            decreases 27 - i,
        {
            let level: u16 = (i / 9 + 1) as u16;
            let k: usize = i % 9;
            let address = register(level, k);
            let ghost before = self.replies@;
            let ghost settings_before = self.settings@;
            let v = match self.read_word(address) {
                Ok(v) => v,
                Err(e) => {
                    assert(self.settings@ == settings_before);
                    assert forall|t: int| 0 <= t < o + i implies self.replies@[t] == before[t] by {
                        if self.replies@ != before {
                            assert(self.replies@.drop_last()[t] == self.replies@[t]);
                        }
                    }
                    assert forall|t: int| 0 <= t < o implies self.replies@[t] == old(
                        self,
                    ).replies@[t] by {
                        assert(before.subrange(0, o)[t] == before[t]);
                    }
                    assert(self.replies@.subrange(0, o) =~= old(self).replies@);
                    assert(settings_reads((i + 1) as nat) == settings_reads(i as nat) + read_frame(
                        register_of(read_level(i as nat), (i % 9) as nat),
                    ));
                    assert(self.sent@ =~= old(self).sent@ + settings_reads((i + 1) as nat));
                    let ghost m = (i + 1) as nat;
                    let ghost tail = Seq::new(
                        ((m - 1) / 9) as nat,
                        |j: int| setting_read((j + 1) as nat, self.replies@.subrange(o + 9 * j, o + 9 * j + 9)),
                    );
                    assert forall|j: int| 0 <= j < i / 9 implies self.settings@[os + j] == tail[j] by {
                        assert(self.replies@.subrange(o + 9 * j, o + 9 * j + 9) =~= before.subrange(
                            o + 9 * j,
                            o + 9 * j + 9,
                        ));
                    }
                    assert(self.settings@ =~= old(self).settings@ + tail) by {
                        assert forall|t: int| 0 <= t < os implies self.settings@[t] == old(self).settings@[t] by {
                            assert(self.settings@.subrange(0, os)[t] == self.settings@[t]);
                        }
                    }
                    assert(self.sent@ == old(self).sent@ + settings_reads(m));
                    return Err(e);
                },
            };
            assert(self.replies@[o + i] == self.replies@.last());
            assert(self.sent@ =~= old(self).sent@ + settings_reads((i + 1) as nat)) by {
                assert(settings_reads((i + 1) as nat) == settings_reads(i as nat) + read_frame(
                    register_of(read_level(i as nat), (i % 9) as nat),
                ));
            }
            assert forall|t: int| 0 <= t < o + i implies self.replies@[t] == before[t] by {
                assert(self.replies@.drop_last()[t] == self.replies@[t]);
            }
            assert(self.replies@.subrange(0, o) =~= before.subrange(0, o));
            let ghost words_before = words@;
            words.push(v);
            assert forall|t: int| 0 <= t < i + 1 implies u16_outcome(
                #[trigger] self.replies@[o + t],
            ) is Ok by {
                if t < i {
                    assert(self.replies@[o + t] == before[o + t]);
                }
            }
            assert forall|kk: int| 0 <= kk < words@.len() implies words@[kk] == reply_value(
                #[trigger] self.replies@[o + (i + 1) - words@.len() + kk],
            ) by {
                if kk < words_before.len() {
                    assert(words@[kk] == words_before[kk]);
                    assert(self.replies@[o + i - words_before.len() + kk] == before[o + i
                        - words_before.len() + kk]);
                }
            }
            if k == 8 {
                let s = Setting::new(
                    level,
                    words[0],
                    words[1],
                    words[2],
                    words[3],
                    words[4],
                    words[5],
                    words[6],
                    words[7],
                    words[8],
                );
                let ghost j = (i / 9) as int;
                let ghost sub = self.replies@.subrange(o + 9 * j, o + 9 * j + 9);
                assert(Seq::new(9, |k: int| reply_value(sub[k])) =~= words@) by {
                    assert(words@.len() == 9);
                    assert(o + 9 * j == o + i + 1 - 9);
                    assert forall|k: int| 0 <= k < 9 implies reply_value(sub[k]) == words@[k] by {
                        assert(sub[k] == self.replies@[o + 9 * j + k]);
                        assert(o + 9 * j + k == o + (i + 1) - words@.len() + k);
                        assert(words@[k] == reply_value(
                            self.replies@[o + (i + 1) - words@.len() + k],
                        ));
                    }
                }
                self.settings.push(s);
                words = Vec::new();
                assert(self.settings@.subrange(0, os) =~= settings_before.subrange(0, os));
                assert forall|jj: int| 0 <= jj < (i + 1) / 9 implies #[trigger] self.settings@[os
                    + jj] == setting_read(
                    (jj + 1) as nat,
                    self.replies@.subrange(o + 9 * jj, o + 9 * jj + 9),
                ) by {
                    if jj < j {
                        assert(self.settings@[os + jj] == settings_before[os + jj]);
                        assert(self.replies@.subrange(o + 9 * jj, o + 9 * jj + 9) =~= before.subrange(
                            o + 9 * jj,
                            o + 9 * jj + 9,
                        ));
                    }
                }
            } else {
                assert forall|jj: int| 0 <= jj < (i + 1) / 9 implies #[trigger] self.settings@[os
                    + jj] == setting_read(
                    (jj + 1) as nat,
                    self.replies@.subrange(o + 9 * jj, o + 9 * jj + 9),
                ) by {
                    assert(self.replies@.subrange(o + 9 * jj, o + 9 * jj + 9) =~= before.subrange(
                        o + 9 * jj,
                        o + 9 * jj + 9,
                    ));
                }
            }
            i = i + 1;
        }
        Ok(())
    }

    /// Writes the staged setting at `idx` to its nine registers in register order, at base
    /// `20 * power_level`. A failure stops the batch with no rollback.
    pub fn write_settings(&mut self, idx: usize) -> (r: Result<(), GcuError>)
        requires
            idx < old(self).staged().len(),
        ensures
            final(self).staged() == old(self).staged(),
            final(self).signal() == old(self).signal(),
            extends(old(self).replies(), final(self).replies()),
            !writable(old(self).staged()[idx as int]) ==> {
                &&& r == Err::<(), GcuError>(GcuError::OutOfRange)
                &&& final(self).sent() == old(self).sent()
                &&& final(self).replies() == old(self).replies()
            },
            r is Ok ==> {
                &&& writable(old(self).staged()[idx as int])
                &&& final(self).sent() == old(self).sent() + setting_writes(
                    old(self).staged()[idx as int],
                    9,
                )
                &&& final(self).replies().len() == old(self).replies().len() + 9
            },
            r matches Err(e) ==> (e is OutOfRange <==> !writable(old(self).staged()[idx as int])),
            r is Err && writable(old(self).staged()[idx as int]) ==> {
                &&& r matches Err(e) && (e is Io || e is Parse || e is Unterminated)
                &&& exists|m: nat|
                    {
                        &&& 1 <= m <= 9
                        &&& final(self).sent() == old(self).sent() + #[trigger] setting_writes(
                            old(self).staged()[idx as int],
                            m,
                        )
                        &&& final(self).replies().len() == old(self).replies().len() + m - 1
                        &&& final(self).echoed().len() < old(self).echoed().len() + 7 * m ==> (
                        r matches Err(e) && e is Io)
                    }
            },
    {
        let s = self.settings[idx];
        let ghost o = self.replies@.len() as int;
        assert(self.replies@.subrange(0, o) =~= self.replies@);
        if !(20 * (s.power_level as u32) + 16 < 100) {
            return Err(GcuError::OutOfRange);
        }
        let mut k: usize = 0;
        while k < BLOCK_LEN
            invariant
                idx < old(self).settings@.len(),
                s == old(self).settings@[idx as int],
                self.settings@ == old(self).settings@,
                self.replies@ == old(self).replies@,
                self.sent@ == old(self).sent@,
                o == old(self).replies@.len(),
                self.replies@.subrange(0, o) == old(self).replies@,
                k <= BLOCK_LEN,
                forall|q: nat| q < k ==> #[trigger] field_of(s, q) < 10000,
            decreases BLOCK_LEN - k,
        {
            if s.field(k) >= 10000 {
                assert(!writable(s));
                return Err(GcuError::OutOfRange);
            }
            k = k + 1;
        }
        let mut k: usize = 0;
        while k < BLOCK_LEN
            invariant
                idx < old(self).settings@.len(),
                s == old(self).settings@[idx as int],
                writable(s),
                o == old(self).replies@.len(),
                k <= BLOCK_LEN,
                self.settings@ == old(self).settings@,
                self.signal@ == old(self).signal@,
                self.sent@ == old(self).sent@ + setting_writes(s, k as nat),
                self.replies@.len() == o + k,
                self.echo@.len() == old(self).echo@.len() + 7 * k,
                self.replies@.subrange(0, o) == old(self).replies@,
            decreases BLOCK_LEN - k,
        {
            let address = register(s.power_level, k);
            let ghost before = self.replies@;
            match self.write_word(address, s.field(k)) {
                Ok(()) => {},
                Err(e) => {
                    assert(setting_writes(s, (k + 1) as nat) == setting_writes(s, k as nat)
                        + write_frame(
                        register_of(s.power_level as nat, k as nat),
                        field_of(s, k as nat) as nat,
                    ));
                    assert(self.sent@ =~= old(self).sent@ + setting_writes(s, (k + 1) as nat));
                    return Err(e);
                },
            }
            assert(self.replies@.subrange(0, o) =~= before.subrange(0, o)) by {
                assert forall|t: int| 0 <= t < o implies self.replies@[t] == before[t] by {
                    assert(self.replies@.drop_last()[t] == self.replies@[t]);
                }
            }
            assert(setting_writes(s, (k + 1) as nat) == setting_writes(s, k as nat) + write_frame(
                register_of(s.power_level as nat, k as nat),
                field_of(s, k as nat) as nat,
            ));
            assert(self.sent@ =~= old(self).sent@ + setting_writes(s, (k + 1) as nat));
            k = k + 1;
        }
        Ok(())
    }
}

/// The number a classified reply carries.
pub open spec fn u16_of_reply(r: Reply) -> Result<u16, GcuError> {
    if !r.ok {
        Err(GcuError::Protocol)
    } else {
        match bytes_of(r.payload) {
            None => Err(GcuError::Protocol),
            Some(p) => match u16_of_text(p) {
                Some(v) => Ok(v),
                None => Err(GcuError::Parse),
            },
        }
    }
}

/// The text a classified reply carries.
pub open spec fn text_of_reply(r: Reply) -> Result<Seq<char>, GcuError> {
    if !r.ok {
        Err(GcuError::Protocol)
    } else {
        match bytes_of(r.payload) {
            None => Err(GcuError::Protocol),
            Some(p) => match utf8_text(p) {
                Some(t) => Ok(t),
                None => Err(GcuError::Parse),
            },
        }
    }
}

/// The result of a table that cannot be read.
pub open spec fn persistence_failure() -> Result<(), GcuError> {
    Err(GcuError::Persistence)
}

/// The text of a result, as characters.
pub open spec fn text_view(r: Result<String, GcuError>) -> Result<Seq<char>, GcuError> {
    match r {
        Ok(s) => Ok(s@),
        Err(e) => Err(e),
    }
}

/// Reads a classified reply as a number: the data line as a decimal `u16` after an `OK`.
pub fn reply_u16(reply: &Reply) -> (r: Result<u16, GcuError>)
    ensures
        r == u16_of_reply(*reply),
        forall|lines: Seq<Seq<u8>>|
            #[trigger] classifies(*reply, lines) ==> r == u16_outcome(lines),
{
    if !reply.ok {
        return Err(GcuError::Protocol);
    }
    match &reply.payload {
        None => Err(GcuError::Protocol),
        Some(p) => match crate::decimal::parse_u16(p.as_slice()) {
            Some(v) => Ok(v),
            None => Err(GcuError::Parse),
        },
    }
}

/// Reads a classified reply as text: the data line after an `OK`.
pub fn reply_text(reply: &Reply) -> (r: Result<String, GcuError>)
    ensures
        text_view(r) == text_of_reply(*reply),
        forall|lines: Seq<Seq<u8>>|
            #[trigger] classifies(*reply, lines) ==> text_view(r) == text_outcome(lines),
{
    if !reply.ok {
        return Err(GcuError::Protocol);
    }
    match &reply.payload {
        None => Err(GcuError::Protocol),
        Some(p) => match decode_utf8(p.as_slice()) {
            Some(t) => Ok(t),
            None => Err(GcuError::Parse),
        },
    }
}

fn is_ok(l: &Vec<u8>) -> (r: bool)
    ensures
        r == (l@ == ok_line()),
{
    let r = l.len() == 2 && l[0] == 79 && l[1] == 75;
    if r {
        assert(l@ =~= ok_line());
    }
    r
}

fn is_error(l: &Vec<u8>) -> (r: bool)
    ensures
        r == (l@ == error_line()),
{
    let r = l.len() == 5 && l[0] == 69 && l[1] == 114 && l[2] == 114 && l[3] == 111 && l[4]
        == 114;
    if r {
        assert(l@ =~= error_line());
    }
    r
}

} // verus!
