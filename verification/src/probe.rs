//! The latency probe: a straight-through stream, watched from the command line.
use crate::backend::{BackendKind, StreamConfig};
use crate::devices::{DeviceInfo, DeviceLists};
use vstd::prelude::*;
use vstd::string::*;

verus! {

/// What `str::to_lowercase` makes of a text.
pub uninterp spec fn lowered(s: Seq<char>) -> Seq<char>;

/// `str::to_lowercase`: the same text always gives the same lower case; no
/// language of the machine comes into it.
#[verifier::external_body]
fn lowercase(s: &str) -> (r: String)
    ensures
        r@ == lowered(s@),
{
    s.to_lowercase()
}

/// The value of a decimal digit; nothing for what is none.
pub open spec fn digit(c: char) -> nat {
    if '0' <= c <= '9' {
        (c as int - '0' as int) as nat
    } else {
        0
    }
}

/// Whether a text is made up of decimal digits.
pub open spec fn all_digits(s: Seq<char>) -> bool {
    forall|i: int| 0 <= i < s.len() ==> '0' <= #[trigger] s[i] <= '9'
}

/// The number that digits stand for.
pub open spec fn decimal(s: Seq<char>) -> nat
    decreases s.len(),
{
    if s.len() == 0 {
        0
    } else {
        decimal(s.drop_last()) * 10 + digit(s.last())
    }
}

/// A text without its sign, if it starts with a plus.
pub open spec fn unsigned(s: Seq<char>) -> Seq<char> {
    if s.len() > 0 && s[0] == '+' {
        s.skip(1)
    } else {
        s
    }
}

/// The 64-bit number that a text stands for, if it stands for one: at least one
/// digit and nothing but digits, a plus before them aside.
pub open spec fn number_of(s: Seq<char>) -> Option<u64> {
    let d = unsigned(s);
    if d.len() > 0 && all_digits(d) && decimal(d) <= u64::MAX {
        Some(decimal(d) as u64)
    } else {
        None
    }
}

/// A number only grows with its digits.
proof fn decimal_grows(s: Seq<char>, k: int)
    requires
        0 <= k <= s.len(),
    ensures
        decimal(s.take(k)) <= decimal(s),
    decreases s.len() - k,
{
    if k < s.len() {
        decimal_grows(s, k + 1);
        assert(s.take(k + 1).drop_last() =~= s.take(k));
    } else {
        assert(s.take(k) =~= s);
    }
}

/// The number that a text stands for, if it stands for one.
pub fn number(s: &str) -> (r: Option<u64>)
    ensures
        r == number_of(s@),
{
    let n: usize = s.unicode_len();
    let start: usize = if n > 0 && s.get_char(0) == '+' {
        1
    } else {
        0
    };
    let ghost d = unsigned(s@);
    assert(d =~= s@.skip(start as int));
    if start == n {
        return None;
    }
    let mut v: u64 = 0;
    let mut i: usize = start;
    assert(d.take(0) =~= Seq::<char>::empty());
    while i < n
        invariant
            start <= i <= n,
            n == s@.len(),
            d == unsigned(s@),
            d == s@.skip(start as int),
            v == decimal(d.take(i - start)),
            forall|k: int| 0 <= k < i - start ==> '0' <= #[trigger] d[k] <= '9',
        decreases n - i,
    {
        let c: char = s.get_char(i);
        assert(c == d[i - start]);
        if c < '0' || c > '9' {
            return None;
        }
        let x: u64 = c as u64 - '0' as u64;
        let ghost upto = d.take(i - start + 1);
        proof {
            assert(upto.drop_last() =~= d.take(i - start));
            assert(upto.last() == c);
            assert(decimal(upto) == v * 10 + x);
            decimal_grows(d, i - start + 1);
        }
        if v > (u64::MAX - x) / 10 {
            return None;
        }
        v = v * 10 + x;
        i = i + 1;
    }
    assert(d.take(n - start) =~= d);
    Some(v)
}

/// Whether `needle` occurs in `hay` at place `i`.
pub open spec fn occurs_at(hay: Seq<char>, needle: Seq<char>, i: int) -> bool {
    0 <= i && i + needle.len() <= hay.len() && hay.subrange(i, i + needle.len()) == needle
}

/// Whether `needle` occurs in `hay`.
pub open spec fn occurs(hay: Seq<char>, needle: Seq<char>) -> bool {
    exists|i: int| #[trigger] occurs_at(hay, needle, i)
}

/// Whether `needle` occurs in `hay`.
pub fn contains(hay: &str, needle: &str) -> (r: bool)
    ensures
        r == occurs(hay@, needle@),
{
    let n: usize = hay.unicode_len();
    let m: usize = needle.unicode_len();
    if m > n {
        return false;
    }
    let last: usize = n - m;
    let mut i: usize = 0;
    loop
        invariant
            n == hay@.len(),
            m == needle@.len(),
            last == n - m,
            i <= last,
            forall|k: int| 0 <= k < i ==> !#[trigger] occurs_at(hay@, needle@, k),
        ensures
            i == last,
            forall|k: int| 0 <= k <= last ==> !#[trigger] occurs_at(hay@, needle@, k),
        decreases last - i,
    {
        let mut j: usize = 0;
        while j < m && hay.get_char(i + j) == needle.get_char(j)
            invariant
                n == hay@.len(),
                m == needle@.len(),
                i + m <= n,
                j <= m,
                forall|k: int| 0 <= k < j ==> hay@[i + k] == #[trigger] needle@[k],
            decreases m - j,
        {
            j = j + 1;
        }
        if j == m {
            assert(hay@.subrange(i as int, i + m) =~= needle@);
            assert(occurs_at(hay@, needle@, i as int));
            return true;
        }
        assert(hay@.subrange(i as int, i + m)[j as int] == hay@[i + j]);
        assert(!occurs_at(hay@, needle@, i as int));
        if i == last {
            break;
        }
        i = i + 1;
    }
    assert(!occurs(hay@, needle@));
    false
}

/// What is wanted of the probe.
pub struct Wanted {
    /// For how many seconds it runs; zero stands for without an end.
    pub secs: u64,
    /// What the names of the devices contain; the default devices if absent.
    pub filter: Option<String>,
    /// The backend.
    pub backend: BackendKind,
}

/// What is wanted, in the form that contracts speak of.
pub struct Wish {
    /// For how many seconds it runs.
    pub secs: u64,
    /// What the names of the devices contain.
    pub filter: Option<Seq<char>>,
    /// The backend.
    pub backend: BackendKind,
}

impl View for Wanted {
    type V = Wish;

    open spec fn view(&self) -> Wish {
        Wish {
            secs: self.secs,
            filter: match self.filter {
                None => None,
                Some(s) => Some(s@),
            },
            backend: self.backend,
        }
    }
}

/// What is wanted where nothing is said: ten seconds on the default devices in
/// shared mode.
pub open spec fn unasked() -> Wish {
    Wish { secs: 10, filter: None, backend: BackendKind::WasapiShared }
}

/// Whether a word in lower case asks for exclusive mode.
pub open spec fn says_exclusive(low: Seq<char>) -> bool {
    low == "exclusive"@ || low == "excl"@ || low == "ex"@ || low == "獨佔"@
}

/// Whether a word in lower case asks for shared mode.
pub open spec fn says_shared(low: Seq<char>) -> bool {
    low == "shared"@ || low == "share"@ || low == "共享"@
}

/// What is wanted once the word `arg`, `low` in lower case, was heard: a number is
/// the seconds, some words are a backend, anything else is what the names contain.
pub open spec fn heeded(wish: Wish, arg: Seq<char>, low: Seq<char>) -> Wish {
    match number_of(arg) {
        Some(n) => Wish { secs: n, ..wish },
        None => if says_exclusive(low) {
            Wish { backend: BackendKind::WasapiExclusive, ..wish }
        } else if says_shared(low) {
            Wish { backend: BackendKind::WasapiShared, ..wish }
        } else {
            Wish { filter: Some(arg), ..wish }
        },
    }
}

/// What is wanted once the first `n` words were heard.
pub open spec fn heard(args: Seq<String>, n: nat) -> Wish
    decreases n,
{
    if n == 0 {
        unasked()
    } else {
        heeded(heard(args, (n - 1) as nat), args[n - 1]@, lowered(args[n - 1]@))
    }
}

/// Heeds a word, given in lower case too.
pub fn heed(wanted: &mut Wanted, arg: &str, low: &String)
    ensures
        final(wanted)@ == heeded(old(wanted)@, arg@, low@),
{
    if let Some(n) = number(arg) {
        wanted.secs = n;
    } else if *low == "exclusive".to_owned() || *low == "excl".to_owned() || *low == "ex".to_owned()
        || *low == "獨佔".to_owned() {
        wanted.backend = BackendKind::WasapiExclusive;
    } else if *low == "shared".to_owned() || *low == "share".to_owned() || *low
        == "共享".to_owned() {
        wanted.backend = BackendKind::WasapiShared;
    } else {
        wanted.filter = Some(arg.to_owned());
    }
}

/// What the words on the command line ask for; later ones win.
pub fn parse_args(args: &Vec<String>) -> (r: Wanted)
    ensures
        r@ == heard(args@, args@.len()),
{
    let mut wanted = Wanted { secs: 10, filter: None, backend: BackendKind::WasapiShared };
    let mut i: usize = 0;
    while i < args.len()
        invariant
            i <= args@.len(),
            wanted@ == heard(args@, i as nat),
        decreases args@.len() - i,
    {
        let low = lowercase(args[i].as_str());
        heed(&mut wanted, args[i].as_str(), &low);
        i = i + 1;
    }
    wanted
}

/// Whether a device is meant by `needle`: its name contains it, upper and lower
/// case aside.
pub open spec fn meant(device: DeviceInfo, needle: Seq<char>) -> bool {
    occurs(lowered(device.name@), lowered(needle))
}

/// The first device meant by `needle`, by its place in the list.
pub fn find_device(list: &Vec<DeviceInfo>, needle: &str) -> (r: Option<usize>)
    ensures
        match r {
            Some(i) => i < list@.len() && meant(list@[i as int], needle@) && forall|k: int|
                0 <= k < i ==> !meant(#[trigger] list@[k], needle@),
            None => forall|k: int| 0 <= k < list@.len() ==> !meant(#[trigger] list@[k], needle@),
        },
{
    let low = lowercase(needle);
    let mut i: usize = 0;
    while i < list.len()
        invariant
            i <= list@.len(),
            low@ == lowered(needle@),
            forall|k: int| 0 <= k < i ==> !meant(#[trigger] list@[k], needle@),
        decreases list@.len() - i,
    {
        let name = lowercase(list[i].name.as_str());
        if contains(name.as_str(), low.as_str()) {
            return Some(i);
        }
        i = i + 1;
    }
    None
}

/// `id` is that of the first device meant, nothing if there is none or nothing is
/// said.
pub open spec fn chosen(list: Seq<DeviceInfo>, filter: Option<Seq<char>>, id: Option<String>) -> bool {
    match (filter, id) {
        (None, _) => id is None,
        (Some(f), None) => forall|k: int| 0 <= k < list.len() ==> !meant(#[trigger] list[k], f),
        (Some(f), Some(id)) => exists|i: int|
            0 <= i < list.len() && meant(#[trigger] list[i], f) && id@ == list[i].id@ && (forall|
                k: int,
            |
                0 <= k < i ==> !meant(#[trigger] list[k], f)),
    }
}

/// The identity of the device to use.
pub fn choose_id(list: &Vec<DeviceInfo>, filter: &Option<String>) -> (id: Option<String>)
    ensures
        chosen(list@, crate::devices::named(*filter), id),
{
    match filter {
        None => None,
        Some(f) => match find_device(list, f.as_str()) {
            None => None,
            Some(i) => {
                let id = list[i].id.clone();
                assert(meant(list@[i as int], f@) && id@ == list@[i as int].id@);
                Some(id)
            },
        },
    }
}

/// What the stream is opened with.
pub fn configure(devices: &DeviceLists, filter: &Option<String>) -> (r: StreamConfig)
    ensures
        r.sample_rate == 48_000,
        r.block_size == 128,
        r.channels == 1,
        chosen(devices.capture@, crate::devices::named(*filter), r.capture_id),
        chosen(devices.render@, crate::devices::named(*filter), r.render_id),
        r.asio_driver is None,
{
    let mut config = StreamConfig::default();
    config.capture_id = choose_id(&devices.capture, filter);
    config.render_id = choose_id(&devices.render, filter);
    config
}

/// The line for a device in the list: its name, marked if it is the default.
pub fn device_line(device: &DeviceInfo) -> (r: String)
    ensures
        r@ == if device.is_default {
            "    • "@ + device.name@ + " ★預設"@
        } else {
            "    • "@ + device.name@
        },
{
    let line = "    • ".to_owned().concat(device.name.as_str());
    if device.is_default {
        line.concat(" ★預設")
    } else {
        line
    }
}

/// A run of the probe.
pub struct Run {
    /// For how many seconds it runs; zero stands for without an end.
    pub secs: u64,
    /// Seconds so far.
    pub elapsed: u64,
    /// Counts so far.
    pub last_xrun: u64,
}

/// What a second brought.
pub enum Second {
    /// The stream has ended.
    Died,
    /// So many counts in this second, and whether the run is over.
    Counted(u64, bool),
}

impl Run {
    /// A run that has just begun.
    pub fn new(secs: u64) -> (r: Self)
        ensures
            r.secs == secs,
            r.elapsed == 0,
            r.last_xrun == 0,
    {
        Run { secs, elapsed: 0, last_xrun: 0 }
    }

    /// One more second, at the end of which the stream is alive or not and has
    /// counted to `total`.
    pub fn second(&mut self, alive: bool, total: u64) -> (r: Second)
        requires
            old(self).elapsed < u64::MAX,
            old(self).last_xrun <= total,
        ensures
            final(self).secs == old(self).secs,
            final(self).elapsed == old(self).elapsed + 1,
            if alive {
                &&& final(self).last_xrun == total
                &&& r == Second::Counted(
                    (total - old(self).last_xrun) as u64,
                    old(self).secs != 0 && old(self).elapsed + 1 >= old(self).secs,
                )
            } else {
                final(self).last_xrun == old(self).last_xrun && r is Died
            },
    {
        self.elapsed = self.elapsed + 1;
        if !alive {
            return Second::Died;
        }
        let delta: u64 = total - self.last_xrun;
        self.last_xrun = total;
        Second::Counted(delta, self.secs != 0 && self.elapsed >= self.secs)
    }
}

/// A run with an end is over after exactly its seconds: while it is alive, the
/// second that ends it is the one that completes them.
pub proof fn run_ends_on_time(secs: u64, elapsed: u64)
    requires
        secs > 0,
        elapsed < secs,
    ensures
        (secs != 0 && elapsed + 1 >= secs) <==> elapsed + 1 == secs,
{
}

/// `text` is a display of the number `n`.
pub open spec fn displays_number(n: u64, text: Seq<char>) -> bool {
    exists|s: String| #[trigger] to_string_from_display_ensures::<u64>(&n, s) && s@ == text
}

/// The verdict on a run.
pub fn verdict(died: bool, xruns: u64) -> (r: String)
    ensures
        if died {
            r@ == "⚠ 音訊引擎異常終止，本次數據不可信。"@
        } else if xruns == 0 {
            r@ == "✓ 全程零爆音。"@
        } else {
            exists|n: Seq<char>| #[trigger]
                displays_number(xruns, n) && r@ == "⚠ 有 "@ + n
                    + " 次 xrun，需調整 buffer / 檢查 DPC（LatencyMon）。"@
        },
{
    if died {
        "⚠ 音訊引擎異常終止，本次數據不可信。".to_owned()
    } else if xruns == 0 {
        "✓ 全程零爆音。".to_owned()
    } else {
        let n = xruns.to_string();
        assert(displays_number(xruns, n@));
        "⚠ 有 ".to_owned().concat(n.as_str()).concat(
            " 次 xrun，需調整 buffer / 檢查 DPC（LatencyMon）。",
        )
    }
}

/// Numbers are read digit by digit: one more digit makes ten times the number and the
/// digit, as long as that is a 64-bit number, and none beyond.
pub proof fn numbers_grow_by_their_digits(s: Seq<char>, c: char, n: u64)
    requires
        number_of(s) == Some(n),
        '0' <= c <= '9',
    ensures
        number_of(s.push(c)) == if 10 * n + (c as int - '0' as int) <= u64::MAX {
            Some((10 * n + (c as int - '0' as int)) as u64)
        } else {
            None
        },
{
    let d = unsigned(s);
    assert(unsigned(s.push(c)) =~= d.push(c));
    assert(d.push(c).drop_last() =~= d);
}

/// A plus before a number changes nothing, and anything but digits behind it is no number.
pub proof fn numbers_are_digits(s: Seq<char>, i: int)
    ensures
        all_digits(s) ==> number_of(seq!['+'] + s) == number_of(s),
        number_of(Seq::<char>::empty()) is None,
        0 < i < s.len() && !('0' <= s[i] <= '9') ==> number_of(s) is None,
{
    assert((seq!['+'] + s).skip(1) =~= s);
    if all_digits(s) && s.len() > 0 {
        assert('0' <= s[0] <= '9');
    }
    if 0 < i < s.len() && !('0' <= s[i] <= '9') {
        let d = unsigned(s);
        if s[0] == '+' {
            assert(d[i - 1] == s[i]);
        } else {
            assert(d[i] == s[i]);
        }
    }
}

/// Every word changes one thing that is wanted and leaves the rest, so that later words
/// win: a number the seconds, the name of a mode the backend, anything else the devices.
pub proof fn words_change_one_thing(args: Seq<String>, n: nat)
    requires
        n < args.len(),
    ensures
        heard(args, 0) == (Wish { secs: 10, filter: None, backend: BackendKind::WasapiShared }),
        ({
            let (was, is) = (heard(args, n), heard(args, n + 1));
            let word = args[n as int]@;
            let low = lowered(word);
            &&& number_of(word) is Some ==> is.secs == number_of(word)->0 && is.filter == was.filter
                && is.backend == was.backend
            &&& number_of(word) is None ==> is.secs == was.secs
            &&& number_of(word) is None && low == "exclusive"@ ==> is.backend
                == BackendKind::WasapiExclusive && is.filter == was.filter
            &&& number_of(word) is None && low == "shared"@ ==> is.backend
                == BackendKind::WasapiShared && is.filter == was.filter
            &&& is.filter != was.filter ==> is.filter == Some(word) && is.backend == was.backend
            &&& is.backend != was.backend ==> is.filter == was.filter
        }),
{
    reveal_strlit("exclusive");
    reveal_strlit("excl");
    reveal_strlit("ex");
    reveal_strlit("獨佔");
    reveal_strlit("shared");
    if lowered(args[n as int]@) == "shared"@ {
        assert("shared"@.len() == 6);
        assert("exclusive"@.len() == 9 && "excl"@.len() == 4 && "ex"@.len() == 2);
    }
}

} // verus!
