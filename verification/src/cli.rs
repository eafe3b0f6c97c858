//! The command line of the two tunnel programs.
//!
//! The arguments come as byte strings, the program's name first. Flags are
//! read in order; the first fault ends the reading. Addresses and the
//! interface name are handed on as they came: opening them is the caller's.

use vstd::prelude::*;
use vstd::string::StringSliceAdditionalSpecFns;

verus! {

/// The payload length of the inbound program where none is given.
pub const DEFAULT_PAYLOAD_LENGTH: usize = 2048;

/// The longest frame read from the interface where no length is given.
pub const DEFAULT_BUFFER_LENGTH: usize = 8192;

/// The read timeout in milliseconds where none is given.
pub const DEFAULT_READ_TIMEOUT: u64 = 100;

/// What one of the tunnel programs is called and starts from.
pub trait Binary {
    /// The payload length used where the command line gives none.
    const DEFAULT_PAYLOAD_LENGTH: usize;

    /// The program's name.
    fn name() -> &'static str;

    /// The text that explains the command line.
    fn usage() -> Vec<u8>;
}

/// A flag of the command line.
#[derive(Clone, Copy, Debug, PartialEq, Eq, Structural)]
pub enum Flag {
    /// `-h`: explain the command line.
    Help,
    /// `-i`: the name of the virtual interface.
    Interface,
    /// `-l`: the local address and port.
    Local,
    /// `-r`: the remote address and port.
    Remote,
    /// `-p`: the fixed payload length in bytes, zero for none.
    PayloadLen,
    /// `-b`: the longest frame in bytes.
    BufferLen,
    /// `-t`: the read timeout in milliseconds.
    ReadTimeout,
}

/// Why the command line was refused.
#[derive(Clone, Copy, Debug, PartialEq, Eq, Structural)]
pub enum ArgError {
    /// `-h` was given.
    Help,
    /// The argument at this index is no flag.
    UnknownArgument(usize),
    /// The flag is the last argument and has no value.
    MissingValue(Flag),
    /// The flag's value is no number, or one too large.
    InvalidNumber(Flag),
    /// No local address was given.
    MissingLocal,
    /// No remote address was given.
    MissingRemote,
    /// No interface was given.
    MissingInterface,
}

/// What the command line asks for.
#[derive(Debug)]
pub struct Arguments {
    /// The name of the virtual interface.
    pub tap_iface: Vec<u8>,
    /// The local address and port, as given.
    pub local: Vec<u8>,
    /// The remote address and port, as given.
    pub remote: Vec<u8>,
    /// The fixed payload length in bytes, zero for none.
    pub payload_len: usize,
    /// The longest frame in bytes.
    pub buffer_len: usize,
    /// The read timeout in milliseconds.
    pub read_timeout: u64,
}

/// What the command line asks for, for contracts.
pub struct ArgumentsModel {
    pub tap_iface: Seq<u8>,
    pub local: Seq<u8>,
    pub remote: Seq<u8>,
    pub payload_len: usize,
    pub buffer_len: usize,
    pub read_timeout: u64,
}

impl View for Arguments {
    type V = ArgumentsModel;

    open spec fn view(&self) -> ArgumentsModel {
        ArgumentsModel {
            tap_iface: self.tap_iface@,
            local: self.local@,
            remote: self.remote@,
            payload_len: self.payload_len,
            buffer_len: self.buffer_len,
            read_timeout: self.read_timeout,
        }
    }
}

/// What has been read of a command line so far.
pub struct Partial {
    pub tap_iface: Option<Seq<u8>>,
    pub local: Option<Seq<u8>>,
    pub remote: Option<Seq<u8>>,
    pub payload_len: usize,
    pub buffer_len: usize,
    pub read_timeout: u64,
}

/// The flag that an argument is, if it is one: a hyphen and one letter.
pub open spec fn flag_of(arg: Seq<u8>) -> Option<Flag> {
    if arg.len() != 2 || arg[0] != 45 {
        None
    } else if arg[1] == 104 {
        Some(Flag::Help)
    } else if arg[1] == 105 {
        Some(Flag::Interface)
    } else if arg[1] == 108 {
        Some(Flag::Local)
    } else if arg[1] == 114 {
        Some(Flag::Remote)
    } else if arg[1] == 112 {
        Some(Flag::PayloadLen)
    } else if arg[1] == 98 {
        Some(Flag::BufferLen)
    } else if arg[1] == 116 {
        Some(Flag::ReadTimeout)
    } else {
        None
    }
}

/// Whether a text is one decimal digit or more.
pub open spec fn is_digits(s: Seq<u8>) -> bool {
    s.len() > 0 && forall|i: int| 0 <= i < s.len() ==> 48 <= #[trigger] s[i] <= 57
}

/// The number that decimal digits stand for.
pub open spec fn value(s: Seq<u8>) -> nat
    decreases s.len(),
{
    if s.len() == 0 {
        0
    } else {
        value(s.drop_last()) * 10 + (s.last() - 48) as nat
    }
}

/// A text without the plus sign that may stand in front of a number.
pub open spec fn unsigned(s: Seq<u8>) -> Seq<u8> {
    if s.len() > 0 && s[0] == 43 {
        s.subrange(1, s.len() as int)
    } else {
        s
    }
}

/// The number that a text stands for, if it is one and no more than `max`.
pub open spec fn number(s: Seq<u8>, max: nat) -> Option<nat> {
    if is_digits(unsigned(s)) && value(unsigned(s)) <= max {
        Some(value(unsigned(s)))
    } else {
        None
    }
}

/// The decimal digits of a number, without leading zeros.
pub open spec fn digits_of(n: nat) -> Seq<u8>
    decreases n,
{
    if n < 10 {
        seq![(48 + n) as u8]
    } else {
        digits_of(n / 10).push((48 + n % 10) as u8)
    }
}

/// What is known after a flag got its value.
pub open spec fn apply(p: Partial, flag: Flag, text: Seq<u8>) -> Result<Partial, ArgError> {
    match flag {
        Flag::Help => Err(ArgError::Help),
        Flag::Interface => Ok(Partial { tap_iface: Some(text), ..p }),
        Flag::Local => Ok(Partial { local: Some(text), ..p }),
        Flag::Remote => Ok(Partial { remote: Some(text), ..p }),
        Flag::PayloadLen => match number(text, usize::MAX as nat) {
            Some(n) => Ok(Partial { payload_len: n as usize, ..p }),
            None => Err(ArgError::InvalidNumber(flag)),
        },
        Flag::BufferLen => match number(text, usize::MAX as nat) {
            Some(n) => Ok(Partial { buffer_len: n as usize, ..p }),
            None => Err(ArgError::InvalidNumber(flag)),
        },
        Flag::ReadTimeout => match number(text, u64::MAX as nat) {
            Some(n) => Ok(Partial { read_timeout: n as u64, ..p }),
            None => Err(ArgError::InvalidNumber(flag)),
        },
    }
}

/// What is known after the arguments from index `at` on were read, or the
/// first fault among them.
pub open spec fn scan(args: Seq<Seq<u8>>, at: int, p: Partial) -> Result<Partial, ArgError>
    decreases args.len() - at,
{
    if at < 0 || at >= args.len() {
        Ok(p)
    } else {
        match flag_of(args[at]) {
            None => Err(ArgError::UnknownArgument(at as usize)),
            Some(Flag::Help) => Err(ArgError::Help),
            Some(flag) => if at + 1 >= args.len() {
                Err(ArgError::MissingValue(flag))
            } else {
                match apply(p, flag, args[at + 1]) {
                    Ok(next) => scan(args, at + 2, next),
                    Err(e) => Err(e),
                }
            },
        }
    }
}

/// What a command line asks for: its first argument is the program's name,
/// the others are flags with their values. The addresses and the interface
/// must be given; the lengths and the timeout have defaults.
pub open spec fn parse_spec(args: Seq<Seq<u8>>, default_payload_len: usize) -> Result<
    ArgumentsModel,
    ArgError,
> {
    let start = Partial {
        tap_iface: None,
        local: None,
        remote: None,
        payload_len: default_payload_len,
        buffer_len: DEFAULT_BUFFER_LENGTH,
        read_timeout: DEFAULT_READ_TIMEOUT,
    };
    match scan(args, 1, start) {
        Err(e) => Err(e),
        Ok(p) => if p.local is None {
            Err(ArgError::MissingLocal)
        } else if p.remote is None {
            Err(ArgError::MissingRemote)
        } else if p.tap_iface is None {
            Err(ArgError::MissingInterface)
        } else {
            Ok(
                ArgumentsModel {
                    tap_iface: p.tap_iface.unwrap(),
                    local: p.local.unwrap(),
                    remote: p.remote.unwrap(),
                    payload_len: p.payload_len,
                    buffer_len: p.buffer_len,
                    read_timeout: p.read_timeout,
                },
            )
        },
    }
}

/// The arguments as byte strings.
pub open spec fn texts(args: Seq<Vec<u8>>) -> Seq<Seq<u8>> {
    Seq::new(args.len(), |i: int| args[i]@)
}

/// A longer run of digits stands for no smaller number.
pub proof fn lemma_value_grows(s: Seq<u8>, j: int)
    requires
        is_digits(s),
        0 <= j <= s.len(),
    ensures
        value(s.take(j)) <= value(s),
    decreases s.len() - j,
{
    if j == s.len() {
        assert(s.take(j) =~= s);
    } else {
        lemma_value_grows(s, j + 1);
        assert(s.take(j + 1).drop_last() =~= s.take(j));
        assert(s.take(j + 1).last() == s[j]);
    }
}

/// The digits of a number are digits, and stand for that number.
pub proof fn lemma_digits_of(n: nat)
    ensures
        is_digits(digits_of(n)),
        value(digits_of(n)) == n,
        number(digits_of(n), n) == Some(n),
    decreases n,
{
    if n < 10 {
        let d = digits_of(n);
        assert(d.drop_last() =~= Seq::<u8>::empty());
        assert(value(d.drop_last()) == 0);
    } else {
        lemma_digits_of(n / 10);
        let d = digits_of(n);
        assert(d.drop_last() =~= digits_of(n / 10));
        assert(d.last() == (48 + n % 10) as u8);
    }
}

/// Reads a number no larger than `max`: decimal digits, with or without a
/// plus sign in front.
pub fn parse_number(s: &[u8], max: u64) -> (r: Option<u64>)
    ensures
        match r {
            Some(n) => number(s@, max as nat) == Some(n as nat),
            None => number(s@, max as nat) is None,
        },
{
    let len: usize = s.len();
    let start: usize = if len > 0 && s[0] == 43 {
        1
    } else {
        0
    };
    let ghost digits = unsigned(s@);
    assert(digits =~= s@.subrange(start as int, len as int));
    if start == len {
        return None;
    }
    let mut acc: u64 = 0;
    let mut i: usize = start;
    assert(digits.take(0) =~= Seq::<u8>::empty());
    while i < len
        invariant
            start <= i <= len,
            len == s@.len(),
            start < len,
            digits == unsigned(s@),
            digits == s@.subrange(start as int, len as int),
            forall|k: int| 0 <= k < i - start ==> 48 <= #[trigger] digits[k] <= 57,
            acc == value(digits.take(i - start)),
            acc <= max,
        decreases len - i,
    {
        let b: u8 = s[i];
        assert(digits[i - start] == b);
        if b < 48 || b > 57 {
            assert(!is_digits(digits));
            return None;
        }
        let d: u64 = (b - 48) as u64;
        proof {
            assert(digits.take(i - start + 1).drop_last() =~= digits.take(i - start));
            assert(digits.take(i - start + 1).last() == b);
            if is_digits(digits) {
                lemma_value_grows(digits, i - start + 1);
            }
        }
        if d > max || acc > (max - d) / 10 {
            return None;
        }
        acc = acc * 10 + d;
        i = i + 1;
    }
    assert(digits.take(len - start) =~= digits);
    Some(acc)
}

/// Appends the decimal digits of a number.
pub fn push_decimal(out: &mut Vec<u8>, n: u64)
    ensures
        final(out)@ == old(out)@ + digits_of(n as nat),
    decreases n,
{
    if n < 10 {
        out.push(48 + n as u8);
        assert(out@ =~= old(out)@ + digits_of(n as nat));
    } else {
        push_decimal(out, n / 10);
        out.push(48 + (n % 10) as u8);
        assert(out@ =~= old(out)@ + digits_of(n as nat));
    }
}

/// Appends the bytes of a text.
pub fn push_text(out: &mut Vec<u8>, text: &str)
    ensures
        final(out)@ == old(out)@ + text.spec_bytes(),
{
    let bytes = text.as_bytes();
    let mut i: usize = 0;
    assert(out@ =~= old(out)@ + bytes@.subrange(0, 0));
    while i < bytes.len()
        invariant
            i <= bytes@.len(),
            bytes@ == text.spec_bytes(),
            out@ == old(out)@ + bytes@.subrange(0, i as int),
        decreases bytes@.len() - i,
    {
        out.push(bytes[i]);
        i = i + 1;
        assert(out@ =~= old(out)@ + bytes@.subrange(0, i as int));
    }
    assert(bytes@.subrange(0, bytes@.len() as int) =~= bytes@);
}

fn copy_of(text: &Vec<u8>) -> (out: Vec<u8>)
    ensures
        out@ == text@,
{
    let mut out: Vec<u8> = Vec::with_capacity(text.len());
    let mut i: usize = 0;
    while i < text.len()
        invariant
            i <= text@.len(),
            out@ == text@.subrange(0, i as int),
        decreases text@.len() - i,
    {
        out.push(text[i]);
        i = i + 1;
        assert(out@ =~= text@.subrange(0, i as int));
    }
    assert(out@ =~= text@);
    out
}

fn flag_in(arg: &Vec<u8>) -> (r: Option<Flag>)
    ensures
        r == flag_of(arg@),
{
    if arg.len() != 2 || arg[0] != 45 {
        return None;
    }
    let letter: u8 = arg[1];
    if letter == 104 {
        Some(Flag::Help)
    } else if letter == 105 {
        Some(Flag::Interface)
    } else if letter == 108 {
        Some(Flag::Local)
    } else if letter == 114 {
        Some(Flag::Remote)
    } else if letter == 112 {
        Some(Flag::PayloadLen)
    } else if letter == 98 {
        Some(Flag::BufferLen)
    } else if letter == 116 {
        Some(Flag::ReadTimeout)
    } else {
        None
    }
}

/// Reads the command line of the program `B`.
pub fn parse_arguments<B: Binary>(args: &Vec<Vec<u8>>) -> (r: Result<Arguments, ArgError>)
    ensures
        match parse_spec(texts(args@), B::DEFAULT_PAYLOAD_LENGTH) {
            Ok(m) => r matches Ok(a) && a@ == m,
            Err(e) => r == Err::<Arguments, ArgError>(e),
        },
{
    let ghost all = texts(args@);
    let ghost start = Partial {
        tap_iface: None,
        local: None,
        remote: None,
        payload_len: B::DEFAULT_PAYLOAD_LENGTH,
        buffer_len: DEFAULT_BUFFER_LENGTH,
        read_timeout: DEFAULT_READ_TIMEOUT,
    };
    let mut tap_iface: Option<Vec<u8>> = None;
    let mut local: Option<Vec<u8>> = None;
    let mut remote: Option<Vec<u8>> = None;
    let mut payload_len: usize = B::DEFAULT_PAYLOAD_LENGTH;
    let mut buffer_len: usize = DEFAULT_BUFFER_LENGTH;
    let mut read_timeout: u64 = DEFAULT_READ_TIMEOUT;
    let mut at: usize = 1;
    while at < args.len()
        invariant
            1 <= at,
            all == texts(args@),
            start == (Partial {
                tap_iface: None,
                local: None,
                remote: None,
                payload_len: B::DEFAULT_PAYLOAD_LENGTH,
                buffer_len: DEFAULT_BUFFER_LENGTH,
                read_timeout: DEFAULT_READ_TIMEOUT,
            }),
            scan(all, 1, start) == scan(
                all,
                at as int,
                Partial {
                    tap_iface: match tap_iface {
                        Some(v) => Some(v@),
                        None => None,
                    },
                    local: match local {
                        Some(v) => Some(v@),
                        None => None,
                    },
                    remote: match remote {
                        Some(v) => Some(v@),
                        None => None,
                    },
                    payload_len,
                    buffer_len,
                    read_timeout,
                },
            ),
        decreases args@.len() - at,
    {
        assert(all[at as int] == args@[at as int]@);
        let flag = match flag_in(&args[at]) {
            Some(f) => f,
            None => {
                return Err(ArgError::UnknownArgument(at));
            },
        };
        if flag == Flag::Help {
            return Err(ArgError::Help);
        }
        if at + 1 >= args.len() {
            return Err(ArgError::MissingValue(flag));
        }
        let text: &Vec<u8> = &args[at + 1];
        assert(all[at + 1] == text@);
        match flag {
            Flag::Help => {},
            Flag::Interface => {
                tap_iface = Some(copy_of(text));
            },
            Flag::Local => {
                local = Some(copy_of(text));
            },
            Flag::Remote => {
                remote = Some(copy_of(text));
            },
            Flag::PayloadLen => match parse_number(text.as_slice(), usize::MAX as u64) {
                Some(n) => {
                    payload_len = n as usize;
                },
                None => {
                    return Err(ArgError::InvalidNumber(flag));
                },
            },
            Flag::BufferLen => match parse_number(text.as_slice(), usize::MAX as u64) {
                Some(n) => {
                    buffer_len = n as usize;
                },
                None => {
                    return Err(ArgError::InvalidNumber(flag));
                },
            },
            Flag::ReadTimeout => match parse_number(text.as_slice(), u64::MAX) {
                Some(n) => {
                    read_timeout = n;
                },
                None => {
                    return Err(ArgError::InvalidNumber(flag));
                },
            },
        }
        at = at + 2;
    }
    let local = match local {
        Some(v) => v,
        None => {
            return Err(ArgError::MissingLocal);
        },
    };
    let remote = match remote {
        Some(v) => v,
        None => {
            return Err(ArgError::MissingRemote);
        },
    };
    let tap_iface = match tap_iface {
        Some(v) => v,
        None => {
            return Err(ArgError::MissingInterface);
        },
    };
    Ok(Arguments { tap_iface, local, remote, payload_len, buffer_len, read_timeout })
}

/// One line of the explanation: an option's name, what it is for, and its
/// default.
pub open spec fn option_line(name: Seq<u8>, help: Seq<u8>, default: nat) -> Seq<u8> {
    "        ".spec_bytes() + name + help + " (default: ".spec_bytes() + digits_of(default)
        + ")\n".spec_bytes()
}

/// The text that explains the command line of a program.
pub open spec fn usage_spec(
    name: Seq<u8>,
    payload_help: Seq<u8>,
    buffer_help: Seq<u8>,
    timeout_help: Seq<u8>,
    default_payload_len: usize,
) -> Seq<u8> {
    "Usage: ".spec_bytes() + name
        + " -i TAP_IFACE -l LOCAL_ADDR_PORT -r REMOTE_ADDR_PORT [-p PAYLOAD_LEN] [-b BUFFER_LEN] [-t READ_TIMEOUT] [-h]\n\n    Required arguments\n        TAP_IFACE         the TAP interface of the tunnel\n        LOCAL_ADDR_PORT   the address and port to use as source of UDP tunnel (format: \"ADDRESS:PORT\")\n        REMOTE_ADDR_PORT  the address and port to use as destination of UDP tunnel (format: \"ADDRESS:PORT\")\n\n    Optional arguments\n".spec_bytes()
        + option_line("PAYLOAD_LEN       ".spec_bytes(), payload_help, default_payload_len as nat)
        + option_line("BUFFER_LEN        ".spec_bytes(), buffer_help, DEFAULT_BUFFER_LENGTH as nat)
        + option_line(
        "READ_TIMEOUT      ".spec_bytes(),
        timeout_help,
        DEFAULT_READ_TIMEOUT as nat,
    )
}

fn push_option(out: &mut Vec<u8>, name: &str, help: &str, default: u64)
    ensures
        final(out)@ == old(out)@ + option_line(
            name.spec_bytes(),
            help.spec_bytes(),
            default as nat,
        ),
{
    push_text(out, "        ");
    push_text(out, name);
    push_text(out, help);
    push_text(out, " (default: ");
    push_decimal(out, default);
    push_text(out, ")\n");
    assert(out@ =~= old(out)@ + option_line(name.spec_bytes(), help.spec_bytes(), default as nat));
}

/// Writes the text that explains the command line of a program.
pub fn usage_text(
    name: &str,
    payload_help: &str,
    buffer_help: &str,
    timeout_help: &str,
    default_payload_len: usize,
) -> (out: Vec<u8>)
    ensures
        out@ == usage_spec(
            name.spec_bytes(),
            payload_help.spec_bytes(),
            buffer_help.spec_bytes(),
            timeout_help.spec_bytes(),
            default_payload_len,
        ),
{
    let mut out: Vec<u8> = Vec::new();
    push_text(&mut out, "Usage: ");
    push_text(&mut out, name);
    push_text(
        &mut out,
        " -i TAP_IFACE -l LOCAL_ADDR_PORT -r REMOTE_ADDR_PORT [-p PAYLOAD_LEN] [-b BUFFER_LEN] [-t READ_TIMEOUT] [-h]\n\n    Required arguments\n        TAP_IFACE         the TAP interface of the tunnel\n        LOCAL_ADDR_PORT   the address and port to use as source of UDP tunnel (format: \"ADDRESS:PORT\")\n        REMOTE_ADDR_PORT  the address and port to use as destination of UDP tunnel (format: \"ADDRESS:PORT\")\n\n    Optional arguments\n",
    );
    push_option(&mut out, "PAYLOAD_LEN       ", payload_help, default_payload_len as u64);
    push_option(&mut out, "BUFFER_LEN        ", buffer_help, DEFAULT_BUFFER_LENGTH as u64);
    push_option(&mut out, "READ_TIMEOUT      ", timeout_help, DEFAULT_READ_TIMEOUT);
    assert(out@ =~= usage_spec(
        name.spec_bytes(),
        payload_help.spec_bytes(),
        buffer_help.spec_bytes(),
        timeout_help.spec_bytes(),
        default_payload_len,
    ));
    out
}

/// The outbound program: frames from the interface leave as datagrams.
pub struct SatEncap;

/// The inbound program: datagrams come back as frames for the interface.
pub struct SatDecap;

impl Binary for SatEncap {
    const DEFAULT_PAYLOAD_LENGTH: usize = 0;

    fn name() -> (n: &'static str)
        ensures
            n@ == "satencap"@,
    {
        "satencap"
    }

    fn usage() -> (text: Vec<u8>)
        ensures
            text@ == usage_spec(
                "satencap".spec_bytes(),
                "the constant size (bytes) of outcoming payload to the UDP tunnel. Set 0 to send packets of variable payload length".spec_bytes(),
                "the max size (bytes) of incoming IP packet".spec_bytes(),
                "the timeout (ms) to read incoming IP packets".spec_bytes(),
                0,
            ),
    {
        usage_text(
            Self::name(),
            "the constant size (bytes) of outcoming payload to the UDP tunnel. Set 0 to send packets of variable payload length",
            "the max size (bytes) of incoming IP packet",
            "the timeout (ms) to read incoming IP packets",
            Self::DEFAULT_PAYLOAD_LENGTH,
        )
    }
}

impl Binary for SatDecap {
    const DEFAULT_PAYLOAD_LENGTH: usize = 2048;

    fn name() -> (n: &'static str)
        ensures
            n@ == "satdecap"@,
    {
        "satdecap"
    }

    fn usage() -> (text: Vec<u8>)
        ensures
            text@ == usage_spec(
                "satdecap".spec_bytes(),
                "the constant size (bytes) of incoming payload to the UDP tunnel".spec_bytes(),
                "the max size (bytes) of outcoming IP packet".spec_bytes(),
                "the timeout (ms) to read incoming payload from UDP tunnel".spec_bytes(),
                2048,
            ),
    {
        usage_text(
            Self::name(),
            "the constant size (bytes) of incoming payload to the UDP tunnel",
            "the max size (bytes) of outcoming IP packet",
            "the timeout (ms) to read incoming payload from UDP tunnel",
            Self::DEFAULT_PAYLOAD_LENGTH,
        )
    }
}

} // verus!
