//! User-provided configuration: line-oriented `key=value` text.
//!
//! Recognized keys are `kernel` (single path), `command_line` (single
//! string) and `initrd` (repeatable path). Forward slashes in paths are
//! translated to the firmware's native separator. A value must be valid
//! UTF-8 and NUL-free. A final line without a terminator is not
//! processed: a trailing newline is a documented requirement of the
//! format.

use vstd::prelude::*;

use vstd::utf8::decode_utf8;
use vstd::utf8::valid_utf8;

use crate::status::Status;
use crate::string::utf16_of;
use crate::string::{EfiStr, EfiString};

verus! {

/// The mathematical content of a configuration.
#[verifier::ext_equal]
pub ghost struct ConfigV {
    /// Kernel path units, including the final NUL.
    pub kernel: Seq<u16>,
    /// Command-line bytes, without a terminator.
    pub command_line: Seq<u8>,
    /// Payload path units, in listed order, each including its final NUL.
    pub initrd: Seq<Seq<u16>>,
}

/// A configuration parse error, mathematically.
#[verifier::ext_equal]
pub ghost enum ErrV {
    /// A malformed line, by 1-based line number.
    Syntax(int),
    /// An unrecognized key, with its bytes and line number.
    UnknownKey(Seq<u8>, int),
    /// A value that is not valid NUL-free UTF-8, by line number.
    UnsupportedChar(int),
}

/// The configuration before any line was processed.
pub open spec fn empty_config() -> ConfigV {
    ConfigV { kernel: seq![0u16], command_line: Seq::empty(), initrd: Seq::empty() }
}

/// Whether `b` is accepted in a value: any byte but NUL.
pub open spec fn value_byte_ok(b: u8) -> bool {
    b != 0
}

/// Whether `v` is accepted as a value: a valid UTF-8 encoding with no
/// NUL byte.
pub open spec fn value_ok(v: Seq<u8>) -> bool {
    &&& valid_utf8(v)
    &&& forall|i: int| 0 <= i < v.len() ==> value_byte_ok(#[trigger] v[i])
}

/// `u` with every forward-slash unit replaced by a backslash unit.
pub open spec fn translate_separators(u: Seq<u16>) -> Seq<u16> {
    Seq::new(
        u.len(),
        |i: int|
            if u[i] == 0x2fu16 {
                0x5cu16
            } else {
                u[i]
            },
    )
}

/// A path value as firmware string units: the UTF-16 encoding of its
/// characters, forward slashes translated to backslashes, and the final
/// NUL appended.
pub open spec fn path_units(v: Seq<u8>) -> Seq<u16> {
    translate_separators(utf16_of(decode_utf8(v))).push(0)
}

/// The bytes of the `kernel` key.
pub open spec fn kernel_key() -> Seq<u8> {
    seq![107u8, 101u8, 114u8, 110u8, 101u8, 108u8]
}

/// The bytes of the `command_line` key.
pub open spec fn command_line_key() -> Seq<u8> {
    seq![99u8, 111u8, 109u8, 109u8, 97u8, 110u8, 100u8, 95u8, 108u8, 105u8, 110u8, 101u8]
}

/// The bytes of the `initrd` key.
pub open spec fn initrd_key() -> Seq<u8> {
    seq![105u8, 110u8, 105u8, 116u8, 114u8, 100u8]
}

/// Index of the first occurrence of `b` in `s` at or after `from`, or
/// `s.len()` if there is none.
pub open spec fn find_from(s: Seq<u8>, from: int, b: u8) -> int
    recommends
        0 <= from <= s.len(),
    decreases s.len() - from,
    when 0 <= from <= s.len()
{
    if from >= s.len() {
        s.len() as int
    } else if s[from] == b {
        from
    } else {
        find_from(s, from + 1, b)
    }
}

proof fn lemma_find_from(s: Seq<u8>, from: int, b: u8, at: int)
    requires
        0 <= from <= at <= s.len(),
        forall|j: int| from <= j < at ==> s[j] != b,
        at == s.len() || s[at] == b,
    ensures
        find_from(s, from, b) == at,
    decreases at - from,
{
    if from < at {
        lemma_find_from(s, from + 1, b, at);
    }
}

/// One complete line applied to the configuration: an empty line is
/// skipped; a line must otherwise hold `key=value` with a non-empty key;
/// the value must be made of accepted bytes; and the key must be one of
/// the recognized three.
pub open spec fn step_line(st: ConfigV, line: Seq<u8>, lineno: int) -> Result<ConfigV, ErrV> {
    if line.len() == 0 {
        Ok(st)
    } else {
        let eq = find_from(line, 0, 61u8);
        if eq == line.len() {
            Err(ErrV::Syntax(lineno))
        } else if eq == 0 {
            Err(ErrV::Syntax(lineno))
        } else {
            let key = line.subrange(0, eq);
            let val = line.subrange(eq + 1, line.len() as int);
            if !value_ok(val) {
                Err(ErrV::UnsupportedChar(lineno))
            } else if key == kernel_key() {
                Ok(ConfigV { kernel: path_units(val), ..st })
            } else if key == command_line_key() {
                Ok(ConfigV { command_line: val, ..st })
            } else if key == initrd_key() {
                Ok(ConfigV { initrd: st.initrd.push(path_units(val)), ..st })
            } else {
                Err(ErrV::UnknownKey(key, lineno))
            }
        }
    }
}

/// The lines of `s` from `from` on, applied in order. A final fragment
/// without a line terminator is not processed.
pub open spec fn parse_lines(st: ConfigV, s: Seq<u8>, from: int, lineno: int) -> Result<
    ConfigV,
    ErrV,
>
    recommends
        0 <= from <= s.len(),
    decreases s.len() - from,
    when 0 <= from <= s.len()
    via parse_lines_decreases
{
    let nl = find_from(s, from, 10u8);
    if nl >= s.len() {
        Ok(st)
    } else {
        match step_line(st, s.subrange(from, nl), lineno) {
            Err(e) => Err(e),
            Ok(st2) => parse_lines(st2, s, nl + 1, lineno + 1),
        }
    }
}

#[via_fn]
proof fn parse_lines_decreases(st: ConfigV, s: Seq<u8>, from: int, lineno: int) {
    if 0 <= from <= s.len() {
        lemma_find_from_bounds(s, from, 10u8);
    }
}

proof fn lemma_find_from_bounds(s: Seq<u8>, from: int, b: u8)
    requires
        0 <= from <= s.len(),
    ensures
        from <= find_from(s, from, b) <= s.len(),
    decreases s.len() - from,
{
    if from < s.len() && s[from] != b {
        lemma_find_from_bounds(s, from + 1, b);
    }
}

proof fn lemma_parse_lines_cmd(st: ConfigV, s: Seq<u8>, from: int, lineno: int)
    requires
        0 <= from <= s.len(),
        st.command_line.len() <= s.len(),
    ensures
        parse_lines(st, s, from, lineno) is Ok ==> parse_lines(st, s, from, lineno)
            ->Ok_0.command_line.len() <= s.len(),
    decreases s.len() - from,
{
    let nl = find_from(s, from, 10u8);
    lemma_find_from_bounds(s, from, 10u8);
    if nl < s.len() {
        let line = s.subrange(from, nl);
        lemma_find_from_bounds(line, 0, 61u8);
        match step_line(st, line, lineno) {
            Ok(st2) => {
                assert(st2.command_line.len() <= s.len());
                lemma_parse_lines_cmd(st2, s, nl + 1, lineno + 1);
            },
            Err(_) => {},
        }
    }
}

/// The parsed command line fits within the configuration text it came
/// from.
pub proof fn lemma_parse_config_cmd(s: Seq<u8>)
    ensures
        parse_config(s) is Ok ==> parse_config(s)->Ok_0.command_line.len() <= s.len(),
{
    lemma_parse_lines_cmd(empty_config(), s, 0, 1);
}

/// The whole configuration text, parsed.
pub open spec fn parse_config(s: Seq<u8>) -> Result<ConfigV, ErrV> {
    parse_lines(empty_config(), s, 0, 1)
}

/// An error raised while a configuration is read.
#[derive(Debug)]
pub enum LoadError {
    /// The file's metadata could not be obtained.
    GetFileInfoFailed(Status),
    /// The file's contents could not be read.
    ReadFileFailed(Status),
    /// A malformed line, by 1-based line number.
    SyntaxError(usize),
    /// An unrecognized key, with its bytes and line number.
    UnknownKey(Vec<u8>, usize),
    /// A value that is not valid NUL-free UTF-8, by line number.
    UnsupportedChar(usize),
}

/// Whether the executable error carries the same information as the
/// mathematical one.
pub open spec fn err_matches(e: &LoadError, ev: ErrV) -> bool {
    match ev {
        ErrV::Syntax(l) => e matches LoadError::SyntaxError(x) && x == l,
        ErrV::UnknownKey(k, l) => e matches LoadError::UnknownKey(kb, x) && kb@ == k && x == l,
        ErrV::UnsupportedChar(l) => e matches LoadError::UnsupportedChar(x) && x == l,
    }
}

/// User-provided configuration for the loader.
#[derive(Debug)]
pub struct Config {
    kernel: EfiString,
    command_line: Vec<u8>,
    initrd: Vec<EfiString>,
}

/// The path units of each configured payload, in order.
pub open spec fn initrd_units(v: Seq<EfiString>) -> Seq<Seq<u16>> {
    v.map_values(|s: EfiString| s.units())
}

/// A unit sequence is a well-formed string: it ends with its only NUL.
pub open spec fn units_wf(u: Seq<u16>) -> bool {
    &&& u.len() >= 1
    &&& u.last() == 0
    &&& forall|i: int| 0 <= i < u.len() - 1 ==> u[i] != 0
}

impl Config {
    /// The configuration's mathematical content.
    pub closed spec fn view(&self) -> ConfigV {
        ConfigV {
            kernel: self.kernel.units(),
            command_line: self.command_line@,
            initrd: initrd_units(self.initrd@),
        }
    }

    /// The configuration is well formed: its paths are well-formed
    /// strings and its command line is made of accepted bytes.
    pub open spec fn wf(&self) -> bool {
        &&& units_wf(self.view().kernel)
        &&& value_ok(self.view().command_line)
        &&& forall|i: int|
            0 <= i < self.view().initrd.len() ==> units_wf(#[trigger] self.view().initrd[i])
    }

    /// The configured kernel path; empty when the configuration named
    /// none.
    pub fn kernel(&self) -> (r: &EfiStr)
        ensures
            r.units() == self.view().kernel,
    {
        self.kernel.as_str()
    }

    /// The configured command line, without a terminator.
    pub fn command_line(&self) -> (r: &Vec<u8>)
        ensures
            r@ == self.view().command_line,
    {
        &self.command_line
    }

    /// The configured payload paths, in listed order.
    pub fn initrd(&self) -> (r: &Vec<EfiString>)
        ensures
            initrd_units(r@) == self.view().initrd,
    {
        &self.initrd
    }

    /// Parses configuration text into a configuration, reporting the
    /// first malformed line, unrecognized key or unaccepted value byte
    /// with its 1-based line number.
    #[verifier::loop_isolation(false)]
    pub fn load(data: &[u8]) -> (r: Result<Config, LoadError>)
        requires
            data@.len() < usize::MAX,
        ensures
            match parse_config(data@) {
                Ok(cv) => {
                    &&& r is Ok
                    &&& r->Ok_0.view() == cv
                    &&& r->Ok_0.wf()
                },
                Err(ev) => {
                    &&& r is Err
                    &&& err_matches(&r->Err_0, ev)
                },
            },
    {
        let mut conf = Config { kernel: EfiString::new(), command_line: Vec::new(), initrd: Vec::new() };
        proof {
            assert(conf.view() =~= empty_config());
        }
        let n = data.len();
        let mut start: usize = 0;
        let mut line: usize = 1;
        let mut i: usize = 0;
        while i < n
            invariant
                n == data@.len(),
                n < usize::MAX,
                0 <= start <= i <= n,
                1 <= line <= start + 1,
                forall|j: int| start <= j < i ==> data@[j] != 10u8,
                conf.wf(),
                parse_lines(conf.view(), data@, start as int, line as int) == parse_config(data@),
            decreases n - i,
        {
            if data[i] == 10u8 {
                proof {
                    lemma_find_from(data@, start as int, 10u8, i as int);
                }
                let ghost pre = conf.view();
                match conf.apply_line(data, start, i, line) {
                    Ok(()) => {},
                    Err(e) => {
                        proof {
                            assert(step_line(pre, data@.subrange(start as int, i as int), line as int) is Err);
                        }
                        return Err(e);
                    },
                }
                proof {
                    assert(parse_lines(conf.view(), data@, i + 1, line + 1) == parse_config(
                        data@,
                    ));
                }
                line = line + 1;
                start = i + 1;
            }
            i += 1;
        }
        proof {
            lemma_find_from(data@, start as int, 10u8, n as int);
            assert(parse_lines(conf.view(), data@, start as int, line as int) == Ok::<
                ConfigV,
                ErrV,
            >(conf.view()));
        }
        Ok(conf)
    }

    /// Applies one complete line, `data[start..end]`, to the
    /// configuration.
    #[verifier::loop_isolation(false)]
    fn apply_line(&mut self, data: &[u8], start: usize, end: usize, line: usize) -> (r: Result<
        (),
        LoadError,
    >)
        requires
            old(self).wf(),
            start <= end <= data@.len(),
        ensures
            final(self).wf(),
            ({
                let sl = step_line(
                    old(self).view(),
                    data@.subrange(start as int, end as int),
                    line as int,
                );
                match r {
                    Ok(()) => sl is Ok && final(self).view() == sl->Ok_0,
                    Err(e) => {
                        &&& sl is Err
                        &&& err_matches(&e, sl->Err_0)
                        &&& *final(self) == *old(self)
                    },
                }
            }),
    {
        let ghost lv = data@.subrange(start as int, end as int);
        if start == end {
            return Ok(());
        }
        // Find the first separator in the line.
        let mut eq: usize = start;
        while eq < end && data[eq] != 61u8
            invariant
                start <= eq <= end <= data@.len(),
                forall|j: int| start <= j < eq ==> data@[j] != 61u8,
            decreases end - eq,
        {
            eq += 1;
        }
        proof {
            if eq < end {
                lemma_find_from(lv, 0, 61u8, eq - start);
            } else {
                lemma_find_from(lv, 0, 61u8, lv.len() as int);
            }
        }
        if eq == end {
            return Err(LoadError::SyntaxError(line));
        }
        if eq == start {
            return Err(LoadError::SyntaxError(line));
        }
        let ghost keyv = lv.subrange(0, eq - start);
        proof {
            assert(keyv =~= data@.subrange(start as int, eq as int));
        }
        let ghost val = lv.subrange(eq - start + 1, lv.len() as int);
        // Check that every value byte is accepted.
        let mut k: usize = eq + 1;
        while k < end
            invariant
                eq + 1 <= k <= end <= data@.len(),
                forall|j: int| eq + 1 <= j < k ==> value_byte_ok(#[trigger] data@[j]),
            decreases end - k,
        {
            let b = data[k];
            if b == 0 {
                proof {
                    assert(val[k - (eq + 1)] == data@[k as int]);
                    assert(!value_ok(val));
                }
                return Err(LoadError::UnsupportedChar(line));
            }
            k += 1;
        }
        proof {
            assert forall|j: int| 0 <= j < val.len() implies value_byte_ok(#[trigger] val[j]) by {
                assert(val[j] == data@[eq + 1 + j]);
            }
        }
        // The value must be a valid UTF-8 encoding.
        let decoded = match crate::string::utf8_to_utf16(data, eq + 1, end) {
            Some(u) => u,
            None => {
                proof {
                    assert(data@.subrange(eq + 1, end as int) =~= val);
                    assert(!value_ok(val));
                }
                return Err(LoadError::UnsupportedChar(line));
            },
        };
        proof {
            assert(data@.subrange(eq + 1, end as int) =~= val);
            assert(value_ok(val));
        }
        // Dispatch on the key.
        if key_is_kernel(data, start, eq) {
            let path = parse_path(decoded);
            proof {
                assert(path.units() =~= path_units(val));
            }
            self.kernel = path;
            proof {
                assert(self.view() =~= (ConfigV {
                    kernel: path_units(val),
                    ..old(self).view()
                }));
            }
            return Ok(());
        }
        if key_is_command_line(data, start, eq) {
            let mut v: Vec<u8> = Vec::new();
            let mut t: usize = eq + 1;
            while t < end
                invariant
                    eq + 1 <= t <= end <= data@.len(),
                    v@ =~= data@.subrange(eq + 1, t as int),
                decreases end - t,
            {
                let b = data[t];
                v.push(b);
                proof {
                    assert(v@ =~= data@.subrange(eq + 1, t + 1));
                }
                t += 1;
            }
            proof {
                assert(v@ =~= val);
            }
            self.command_line = v;
            proof {
                assert(self.view() =~= (ConfigV { command_line: val, ..old(self).view() }));
            }
            return Ok(());
        }
        if key_is_initrd(data, start, eq) {
            let path = parse_path(decoded);
            proof {
                assert(path.units() =~= path_units(val));
            }
            let ghost prev = self.initrd@;
            self.initrd.push(path);
            proof {
                assert(self.initrd@ =~= prev.push(path));
                assert forall|j: int| 0 <= j < self.initrd@.len() implies initrd_units(
                    self.initrd@,
                )[j] == old(self).view().initrd.push(path_units(val))[j] by {
                    assert(initrd_units(self.initrd@)[j] == self.initrd@[j].units());
                    if j < prev.len() {
                        assert(self.initrd@[j] == prev[j]);
                        assert(initrd_units(prev)[j] == prev[j].units());
                    } else {
                        assert(self.initrd@[j] == path);
                    }
                }
                assert(initrd_units(self.initrd@) =~= old(self).view().initrd.push(
                    path_units(val),
                ));
                assert(self.view() =~= (ConfigV {
                    initrd: old(self).view().initrd.push(path_units(val)),
                    ..old(self).view()
                }));
            }
            return Ok(());
        }
        // The key is not recognized: report its bytes and the line.
        let mut kb: Vec<u8> = Vec::new();
        let mut t: usize = start;
        while t < eq
            invariant
                start <= t <= eq <= data@.len(),
                kb@ =~= data@.subrange(start as int, t as int),
            decreases eq - t,
        {
            let b = data[t];
            kb.push(b);
            proof {
                assert(kb@ =~= data@.subrange(start as int, t + 1));
            }
            t += 1;
        }
        proof {
            assert(kb@ =~= lv.subrange(0, eq - start));
        }
        Err(LoadError::UnknownKey(kb, line))
    }
}

/// Whether `data[start..end]` is the `kernel` key.
fn key_is_kernel(data: &[u8], start: usize, end: usize) -> (r: bool)
    requires
        start <= end <= data@.len(),
    ensures
        r <==> data@.subrange(start as int, end as int) == kernel_key(),
{
    if end - start != 6 {
        proof {
            assert(data@.subrange(start as int, end as int).len() != kernel_key().len());
        }
        return false;
    }
    let r = data[start] == 107u8 && data[start + 1] == 101u8 && data[start + 2] == 114u8 && data[start
        + 3] == 110u8 && data[start + 4] == 101u8 && data[start + 5] == 108u8;
    proof {
        if r {
            assert(data@.subrange(start as int, end as int) =~= kernel_key());
        } else {
            assert(data@.subrange(start as int, end as int) != kernel_key()) by {
                if data@.subrange(start as int, end as int) == kernel_key() {
                    assert(data@[start as int] == kernel_key()[0]);
                    assert(data@[start + 1] == kernel_key()[1]);
                    assert(data@[start + 2] == kernel_key()[2]);
                    assert(data@[start + 3] == kernel_key()[3]);
                    assert(data@[start + 4] == kernel_key()[4]);
                    assert(data@[start + 5] == kernel_key()[5]);
                }
            }
        }
    }
    r
}

/// Whether `data[start..end]` is the `command_line` key.
fn key_is_command_line(data: &[u8], start: usize, end: usize) -> (r: bool)
    requires
        start <= end <= data@.len(),
    ensures
        r <==> data@.subrange(start as int, end as int) == command_line_key(),
{
    if end - start != 12 {
        proof {
            assert(data@.subrange(start as int, end as int).len() != command_line_key().len());
        }
        return false;
    }
    let r = data[start] == 99u8 && data[start + 1] == 111u8 && data[start + 2] == 109u8 && data[start
        + 3] == 109u8 && data[start + 4] == 97u8 && data[start + 5] == 110u8 && data[start + 6]
        == 100u8 && data[start + 7] == 95u8 && data[start + 8] == 108u8 && data[start + 9] == 105u8
        && data[start + 10] == 110u8 && data[start + 11] == 101u8;
    proof {
        if r {
            assert(data@.subrange(start as int, end as int) =~= command_line_key());
        } else {
            assert(data@.subrange(start as int, end as int) != command_line_key()) by {
                if data@.subrange(start as int, end as int) == command_line_key() {
                    assert forall|j: int| 0 <= j < 12 implies data@[start + j]
                        == command_line_key()[j] by {
                        assert(data@.subrange(start as int, end as int)[j]
                            == command_line_key()[j]);
                    }
                }
            }
        }
    }
    r
}

/// Whether `data[start..end]` is the `initrd` key.
fn key_is_initrd(data: &[u8], start: usize, end: usize) -> (r: bool)
    requires
        start <= end <= data@.len(),
    ensures
        r <==> data@.subrange(start as int, end as int) == initrd_key(),
{
    if end - start != 6 {
        proof {
            assert(data@.subrange(start as int, end as int).len() != initrd_key().len());
        }
        return false;
    }
    let r = data[start] == 105u8 && data[start + 1] == 110u8 && data[start + 2] == 105u8 && data[start
        + 3] == 116u8 && data[start + 4] == 114u8 && data[start + 5] == 100u8;
    proof {
        if r {
            assert(data@.subrange(start as int, end as int) =~= initrd_key());
        } else {
            assert(data@.subrange(start as int, end as int) != initrd_key()) by {
                if data@.subrange(start as int, end as int) == initrd_key() {
                    assert forall|j: int| 0 <= j < 6 implies data@[start + j] == initrd_key()[j] by {
                        assert(data@.subrange(start as int, end as int)[j] == initrd_key()[j]);
                    }
                }
            }
        }
    }
    r
}

/// Builds a firmware path from a value's decoded UTF-16 units,
/// translating forward slashes to backslashes.
fn parse_path(units: Vec<u16>) -> (r: EfiString)
    requires
        forall|i: int| 0 <= i < units@.len() ==> units@[i] != 0,
    ensures
        r.wf(),
        r.units() == translate_separators(units@).push(0),
{
    let ghost original = units@;
    let mut s = EfiString::from_units(units);
    s.replace_unit(0x2f, 0x5c);
    proof {
        assert(s.units() =~= translate_separators(original).push(0));
    }
    s
}

} // verus!
