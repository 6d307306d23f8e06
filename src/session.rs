//! The controller session: the chip's paged register protocol over a byte
//! transport, with a cache of the selected page.
use vstd::prelude::*;
use crate::frame::{LedMatrix, Pages, FIRST_LEN, SECOND_LEN};

verus! {

/// Bus address of the controller.
pub const ADDRESS: u8 = 0x30;

/// Highest page number the chip has.
pub const MAX_PAGE: u8 = 4;

/// The configuration page.
pub const CONFIG_PAGE: u8 = 4;

/// A byte-oriented bus to the chip: plain writes, and a write followed by a
/// read in one transaction. Its model is the log of the transactions it has
/// been handed, each with its address, its bytes, what it read and whether
/// it succeeded; every call appends one entry.
pub trait Transport {
    type Error;

    /// The transactions handed to the bus so far, oldest first. A transport
    /// written in verified code defines this over its own state; the default
    /// only lets a transport written outside verified code (a hardware bus,
    /// which keeps no log) compile, and is never assumed of a generic one.
    open spec fn sent(&self) -> Seq<Event> {
        Seq::empty()
    }

    /// Writes `bytes` to the device at `address`.
    fn write(&mut self, address: u8, bytes: &[u8]) -> (r: Result<(), Self::Error>)
        ensures
            final(self).sent() == old(self).sent().push(Event::Write { address, bytes: bytes@, ok: r is Ok }),
    ;

    /// Writes `bytes` to the device at `address`, then reads into `buffer`.
    fn write_read(&mut self, address: u8, bytes: &[u8], buffer: &mut [u8]) -> (r: Result<(), Self::Error>)
        ensures
            final(self).sent() == old(self).sent().push(
                Event::WriteRead { address, bytes: bytes@, reply: final(buffer)@, ok: r is Ok },
            ),
    ;
}

/// What the session knows of the page the chip has selected.
#[derive(Clone, Copy, Debug, PartialEq, Eq, Structural)]
pub enum PageCache {
    Unknown,
    Page(u8),
}

/// One transaction handed to the transport: the device address, the bytes
/// written, for a combined transaction the bytes read, and whether it
/// succeeded.
pub enum Event {
    Write { address: u8, bytes: Seq<u8>, ok: bool },
    WriteRead { address: u8, bytes: Seq<u8>, reply: Seq<u8>, ok: bool },
}

/// The unlock key that must precede a page select.
pub open spec fn unlock_bytes() -> Seq<u8> {
    seq![0xfeu8, 0xc5u8]
}

/// The page-select command.
pub open spec fn select_bytes(page: u8) -> Seq<u8> {
    seq![0xfdu8, page]
}

/// The writes that make `page` the selected one: none when the cache already
/// shows it, else the unlock key and the select command.
pub open spec fn select_writes(cache: PageCache, page: u8) -> Seq<Seq<u8>> {
    if cache == PageCache::Page(page) {
        seq![]
    } else {
        seq![unlock_bytes(), select_bytes(page)]
    }
}

/// The writes that select `page` and then send `bytes` to it.
pub open spec fn step_writes(cache: PageCache, page: u8, bytes: Seq<u8>) -> Seq<Seq<u8>> {
    select_writes(cache, page).push(bytes)
}

/// The cache after a sequence that ends on `page`: that page when every
/// transaction succeeded, unknown after a failure.
pub open spec fn cache_after(ok: bool, page: u8) -> PageCache {
    if ok {
        PageCache::Page(page)
    } else {
        PageCache::Unknown
    }
}

/// `events` are the writes of `script` attempted in order up to the first
/// failure: all of them, each successful, when `ok`; otherwise a prefix whose
/// last write failed and whose others succeeded.
pub open spec fn ran(script: Seq<Seq<u8>>, events: Seq<Event>, ok: bool) -> bool {
    &&& events.len() <= script.len()
    &&& forall|i: int|
        0 <= i < events.len() ==> #[trigger] events[i] == (Event::Write {
            address: ADDRESS,
            bytes: script[i],
            ok: ok || i + 1 < events.len(),
        })
    &&& ok ==> events.len() == script.len()
    &&& !ok ==> events.len() > 0
}

/// `after` is `before` followed by a run of `script`.
pub open spec fn extends_by(before: Seq<Event>, after: Seq<Event>, script: Seq<Seq<u8>>, ok: bool) -> bool {
    &&& before.len() <= after.len()
    &&& after.subrange(0, before.len() as int) == before
    &&& ran(script, after.subrange(before.len() as int, after.len() as int), ok)
}

/// A sequence that selects the configuration page and then reads a register
/// with the one-byte command `cmd`: either the select failed, or it succeeded
/// and the read followed, with `reply` as what it read.
pub open spec fn queried(
    before: Seq<Event>,
    after: Seq<Event>,
    sel: Seq<Seq<u8>>,
    cmd: u8,
    reply: Seq<u8>,
    ok: bool,
) -> bool {
    ||| (extends_by(before, after, sel, false) && !ok)
    ||| (after.len() == before.len() + sel.len() + 1 && extends_by(before, after.drop_last(), sel, true)
        && after.last() == (Event::WriteRead { address: ADDRESS, bytes: seq![cmd], reply, ok }))
}

/// The software-shutdown read-modify-write: select the configuration page,
/// read register 0, then write it back with bit 0 set. Each stage runs only
/// when the one before it succeeded.
pub open spec fn shutdown_cleared(before: Seq<Event>, after: Seq<Event>, sel: Seq<Seq<u8>>, ok: bool) -> bool {
    let n = before.len() + sel.len();
    ||| (extends_by(before, after, sel, false) && !ok)
    ||| (after.len() == n + 1 && extends_by(before, after.drop_last(), sel, true) && !ok
        && after.last() is WriteRead && after.last()->WriteRead_address == ADDRESS
        && after.last()->WriteRead_bytes == seq![0u8]
        && after.last()->WriteRead_reply.len() == 1 && !after.last()->WriteRead_ok)
    ||| (after.len() == n + 2 && extends_by(before, after.subrange(0, n as int), sel, true)
        && after[n as int] is WriteRead && after[n as int]->WriteRead_address == ADDRESS
        && after[n as int]->WriteRead_bytes == seq![0u8]
        && after[n as int]->WriteRead_reply.len() == 1 && after[n as int]->WriteRead_ok
        && after.last() == (Event::Write {
            address: ADDRESS,
            bytes: seq![0u8, after[n as int]->WriteRead_reply[0] | 1u8],
            ok,
        }))
}

/// The enable command: register 1, then three bytes with every LED on.
pub open spec fn enable_row() -> Seq<u8> {
    seq![1u8, 0xffu8, 0xffu8, 0xffu8]
}

/// A page image for the scaling registers: command byte 0, every other byte
/// `scale`.
pub open spec fn scale_image(len: nat, scale: u8) -> Seq<u8> {
    Seq::new(len, |i: int| if i == 0 { 0u8 } else { scale })
}

/// A run that stops at a failure stays a run, with a failure, when more
/// writes were planned after it.
pub proof fn lemma_stopped(before: Seq<Event>, after: Seq<Event>, s1: Seq<Seq<u8>>, s2: Seq<Seq<u8>>)
    requires
        extends_by(before, after, s1, false),
    ensures
        extends_by(before, after, s1 + s2, false),
{
    let ev = after.subrange(before.len() as int, after.len() as int);
    assert forall|i: int| 0 <= i < ev.len() implies #[trigger] ev[i] == (Event::Write {
        address: ADDRESS,
        bytes: (s1 + s2)[i],
        ok: false || i + 1 < ev.len(),
    }) by {
        assert(ev[i] == (Event::Write { address: ADDRESS, bytes: s1[i], ok: false || i + 1 < ev.len() }));
    }
}

/// A successful run of `s1` followed by a run of `s2` is a run of `s1 + s2`.
pub proof fn lemma_then(
    t0: Seq<Event>,
    t1: Seq<Event>,
    t2: Seq<Event>,
    s1: Seq<Seq<u8>>,
    s2: Seq<Seq<u8>>,
    ok: bool,
)
    requires
        extends_by(t0, t1, s1, true),
        extends_by(t1, t2, s2, ok),
    ensures
        extends_by(t0, t2, s1 + s2, ok),
{
    let e1 = t1.subrange(t0.len() as int, t1.len() as int);
    let e2 = t2.subrange(t1.len() as int, t2.len() as int);
    let e = t2.subrange(t0.len() as int, t2.len() as int);
    assert(t2.subrange(0, t1.len() as int) == t1);
    assert(t2.subrange(0, t0.len() as int) =~= t1.subrange(0, t0.len() as int));
    assert(e =~= e1 + e2);
    assert forall|i: int| 0 <= i < e.len() implies #[trigger] e[i] == (Event::Write {
        address: ADDRESS,
        bytes: (s1 + s2)[i],
        ok: ok || i + 1 < e.len(),
    }) by {
        if i < e1.len() {
            assert(e1[i] == (Event::Write { address: ADDRESS, bytes: s1[i], ok: true || i + 1 < e1.len() }));
        } else {
            let k = i - e1.len();
            assert(e2[k] == (Event::Write { address: ADDRESS, bytes: s2[k], ok: ok || k + 1 < e2.len() }));
        }
    }
}

/// Selecting a page twice in a row: the second select sends nothing and
/// succeeds, so the pair issues the unlock and select writes at most once.
pub proof fn lemma_select_twice(
    t0: Seq<Event>,
    t1: Seq<Event>,
    t2: Seq<Event>,
    cache: PageCache,
    page: u8,
    ok: bool,
)
    requires
        extends_by(t0, t1, select_writes(cache, page), true),
        extends_by(t1, t2, select_writes(cache_after(true, page), page), ok),
    ensures
        t2 == t1,
        ok,
        extends_by(t0, t2, select_writes(cache, page), true),
{
    assert(t2 =~= t1);
}

/// Once a write of a run has failed, nothing after it was sent, and the run
/// as a whole failed.
pub proof fn lemma_nothing_after_failure(
    before: Seq<Event>,
    after: Seq<Event>,
    script: Seq<Seq<u8>>,
    ok: bool,
    k: int,
)
    requires
        extends_by(before, after, script, ok),
        before.len() <= k < after.len(),
        after[k] is Write,
        !after[k]->Write_ok,
    ensures
        !ok,
        after.len() == k + 1,
{
    let ev = after.subrange(before.len() as int, after.len() as int);
    assert(ev[k - before.len()] == after[k]);
}

/// The scaling images: byte 0 is zero, every other byte is `scale`.
pub proof fn lemma_scale_image(len: nat, scale: u8)
    ensures
        scale_image(len, scale).len() == len,
        len > 0 ==> scale_image(len, scale)[0] == 0,
        forall|i: int| 0 < i < len ==> #[trigger] scale_image(len, scale)[i] == scale,
{
}

/// The session with the chip: the bus, and the page the chip is believed
/// to have selected. Every transaction goes to the chip's address.
pub struct Is31<T: Transport> {
    bus: T,
    current_page: PageCache,
}

impl<T: Transport> Is31<T> {
    /// The page the session believes selected.
    pub closed spec fn page(&self) -> PageCache {
        self.current_page
    }

    /// The bus itself.
    pub closed spec fn bus_spec(&self) -> T {
        self.bus
    }

    /// The transactions the bus has been handed, oldest first.
    pub open spec fn trace(&self) -> Seq<Event> {
        self.bus_spec().sent()
    }

    /// A session on `bus` that has sent nothing and knows no page.
    pub fn attach(bus: T) -> (s: Self)
        ensures
            s.page() == PageCache::Unknown,
            s.bus_spec() == bus,
    {
        Is31 { bus, current_page: PageCache::Unknown }
    }

    /// Binds `bus` and resets the chip: selects the configuration page and
    /// sends the software-reset command. On the first transport error it
    /// stops and hands back the bus with that error.
    pub fn new(bus: T) -> (r: Result<Self, (T, T::Error)>)
        ensures
            match r {
                Ok(s) => s.page() == PageCache::Page(CONFIG_PAGE) && extends_by(
                    bus.sent(),
                    s.trace(),
                    step_writes(PageCache::Unknown, CONFIG_PAGE, seq![0x3fu8, 0xaeu8]),
                    true,
                ),
                Err((b, _)) => extends_by(
                    bus.sent(),
                    b.sent(),
                    step_writes(PageCache::Unknown, CONFIG_PAGE, seq![0x3fu8, 0xaeu8]),
                    false,
                ),
            },
    {
        let mut s = Self::attach(bus);
        match s.reset() {
            Ok(()) => Ok(s),
            Err(e) => Err((s.release(), e)),
        }
    }

    /// The bus.
    pub fn bus(&self) -> (b: &T)
        ensures
            *b == self.bus_spec(),
    {
        &self.bus
    }

    /// Ends the session and hands the bus back.
    pub fn release(self) -> (b: T)
        ensures
            b == self.bus_spec(),
    {
        self.bus
    }

    fn on_page(&self, page: u8) -> (b: bool)
        ensures
            b == (self.page() == PageCache::Page(page)),
    {
        match self.current_page {
            PageCache::Page(p) => p == page,
            PageCache::Unknown => false,
        }
    }

    /// Writes `data` to the chip as one transaction. A failure leaves the
    /// cached page unknown.
    pub fn write(&mut self, data: &[u8]) -> (r: Result<(), T::Error>)
        ensures
            final(self).trace() == old(self).trace().push(Event::Write { address: ADDRESS, bytes: data@, ok: r is Ok }),
            final(self).page() == (if r is Ok { old(self).page() } else { PageCache::Unknown }),
            extends_by(old(self).trace(), final(self).trace(), seq![data@], r is Ok),
    {
        let r = self.bus.write(ADDRESS, data);
        if r.is_err() {
            self.current_page = PageCache::Unknown;
        }
        proof {
            let t = self.trace();
            let ev = t.subrange(old(self).trace().len() as int, t.len() as int);
            assert(ev =~= seq![Event::Write { address: ADDRESS, bytes: data@, ok: r is Ok }]);
            assert(t.subrange(0, old(self).trace().len() as int) =~= old(self).trace());
        }
        r
    }

    fn write_read(&mut self, data: &[u8], buffer: &mut [u8]) -> (r: Result<(), T::Error>)
        ensures
            final(self).trace() == old(self).trace().push(
                Event::WriteRead { address: ADDRESS, bytes: data@, reply: final(buffer)@, ok: r is Ok },
            ),
            final(self).page() == (if r is Ok { old(self).page() } else { PageCache::Unknown }),
    {
        let r = self.bus.write_read(ADDRESS, data, buffer);
        if r.is_err() {
            self.current_page = PageCache::Unknown;
        }
        r
    }
    fn force_page(&mut self, page: u8) -> (r: Result<(), T::Error>)
        ensures
            extends_by(old(self).trace(), final(self).trace(), seq![unlock_bytes(), select_bytes(page)], r is Ok),
            final(self).page() == cache_after(r is Ok, page),
    {
        let ghost t0 = self.trace();
        let key: [u8; 2] = [0xfe, 0xc5];
        let r = self.write(key.as_slice());
        if r.is_err() {
            proof {
                lemma_stopped(t0, self.trace(), seq![unlock_bytes()], seq![select_bytes(page)]);
                assert(seq![unlock_bytes()] + seq![select_bytes(page)] =~= seq![unlock_bytes(), select_bytes(page)]);
            }
            return r;
        }
        let ghost t1 = self.trace();
        let cmd: [u8; 2] = [0xfd, page];
        let r = self.write(cmd.as_slice());
        proof {
            assert(key@ =~= unlock_bytes());
            assert(cmd@ =~= select_bytes(page));
            lemma_then(t0, t1, self.trace(), seq![unlock_bytes()], seq![select_bytes(page)], r is Ok);
            assert(seq![unlock_bytes()] + seq![select_bytes(page)] =~= seq![unlock_bytes(), select_bytes(page)]);
        }
        if r.is_ok() {
            self.current_page = PageCache::Page(page);
        }
        r
    }

    /// Makes `page` the chip's selected page: sends the unlock key and the
    /// select command unless the cache already shows that page, in which case
    /// nothing is sent.
    pub fn select_page(&mut self, page: u8) -> (r: Result<(), T::Error>)
        requires
            page <= MAX_PAGE,
        ensures
            extends_by(old(self).trace(), final(self).trace(), select_writes(old(self).page(), page), r is Ok),
            final(self).page() == cache_after(r is Ok, page),
    {
        if self.on_page(page) {
            proof {
                assert(self.trace().subrange(0, self.trace().len() as int) =~= self.trace());
                assert(self.trace().subrange(self.trace().len() as int, self.trace().len() as int) =~= Seq::<Event>::empty());
            }
            Ok(())
        } else {
            self.force_page(page)
        }
    }

    /// Selects `page`, then writes `data` to it.
    fn select_and_write(&mut self, page: u8, data: &[u8]) -> (r: Result<(), T::Error>)
        requires
            page <= MAX_PAGE,
        ensures
            extends_by(old(self).trace(), final(self).trace(), step_writes(old(self).page(), page, data@), r is Ok),
            final(self).page() == cache_after(r is Ok, page),
    {
        let ghost t0 = self.trace();
        let ghost sel = select_writes(self.page(), page);
        let r = self.select_page(page);
        if r.is_err() {
            proof {
                lemma_stopped(t0, self.trace(), sel, seq![data@]);
                assert(sel + seq![data@] =~= sel.push(data@));
            }
            return r;
        }
        let ghost t1 = self.trace();
        let r = self.write(data);
        proof {
            lemma_then(t0, t1, self.trace(), sel, seq![data@], r is Ok);
            assert(sel + seq![data@] =~= sel.push(data@));
        }
        r
    }

    /// Selects the configuration page and sends the software-reset command.
    pub fn reset(&mut self) -> (r: Result<(), T::Error>)
        ensures
            extends_by(
                old(self).trace(),
                final(self).trace(),
                step_writes(old(self).page(), CONFIG_PAGE, seq![0x3fu8, 0xaeu8]),
                r is Ok,
            ),
            final(self).page() == cache_after(r is Ok, CONFIG_PAGE),
    {
        let cmd: [u8; 2] = [0x3f, 0xae];
        proof { assert(cmd@ =~= seq![0x3fu8, 0xaeu8]); }
        self.select_and_write(CONFIG_PAGE, cmd.as_slice())
    }
    /// Selects `p1` and writes `d1`, then, if that succeeded, selects `p2`
    /// and writes `d2`.
    fn two_steps(&mut self, p1: u8, d1: &[u8], p2: u8, d2: &[u8]) -> (r: Result<(), T::Error>)
        requires
            p1 <= MAX_PAGE,
            p2 <= MAX_PAGE,
        ensures
            extends_by(
                old(self).trace(),
                final(self).trace(),
                step_writes(old(self).page(), p1, d1@) + step_writes(PageCache::Page(p1), p2, d2@),
                r is Ok,
            ),
            final(self).page() == cache_after(r is Ok, p2),
    {
        let ghost t0 = self.trace();
        let ghost s1 = step_writes(self.page(), p1, d1@);
        let ghost s2 = step_writes(PageCache::Page(p1), p2, d2@);
        let r = self.select_and_write(p1, d1);
        if r.is_err() {
            proof { lemma_stopped(t0, self.trace(), s1, s2); }
            return r;
        }
        let ghost t1 = self.trace();
        let r = self.select_and_write(p2, d2);
        proof { lemma_then(t0, t1, self.trace(), s1, s2, r is Ok); }
        r
    }

    /// Sets the global current-limit register to `voltage`.
    pub fn set_global_voltage(&mut self, voltage: u8) -> (r: Result<(), T::Error>)
        ensures
            extends_by(
                old(self).trace(),
                final(self).trace(),
                step_writes(old(self).page(), CONFIG_PAGE, seq![1u8, voltage]),
                r is Ok,
            ),
            final(self).page() == cache_after(r is Ok, CONFIG_PAGE),
    {
        let cmd: [u8; 2] = [1, voltage];
        proof { assert(cmd@ =~= seq![1u8, voltage]); }
        self.select_and_write(CONFIG_PAGE, cmd.as_slice())
    }

    /// Selects the configuration page, then reads the register that `cmd`
    /// names into `buffer`.
    fn query(&mut self, cmd: u8, buffer: &mut [u8]) -> (r: Result<(), T::Error>)
        ensures
            queried(
                old(self).trace(),
                final(self).trace(),
                select_writes(old(self).page(), CONFIG_PAGE),
                cmd,
                final(buffer)@,
                r is Ok,
            ),
            extends_by(old(self).trace(), final(self).trace(), select_writes(old(self).page(), CONFIG_PAGE), false)
                ==> final(buffer)@ == old(buffer)@,
            final(self).page() == cache_after(r is Ok, CONFIG_PAGE),
    {
        let ghost t0 = self.trace();
        let ghost sel = select_writes(self.page(), CONFIG_PAGE);
        let r = self.select_page(CONFIG_PAGE);
        if r.is_err() {
            return r;
        }
        let ghost t1 = self.trace();
        let data: [u8; 1] = [cmd];
        let r = self.write_read(data.as_slice(), buffer);
        proof {
            assert(data@ =~= seq![cmd]);
            assert(self.trace().drop_last() =~= t1);
            let t2 = self.trace();
            let last = t2[t2.len() - 1];
            assert(!(last is Write));
            if extends_by(t0, t2, sel, false) {
                let ev = t2.subrange(t0.len() as int, t2.len() as int);
                assert(ev[ev.len() - 1] == last);
            }
        }
        r
    }

    /// Reads the global current-limit register into `buffer`.
    pub fn get_global_voltage(&mut self, buffer: &mut [u8]) -> (r: Result<(), T::Error>)
        ensures
            queried(
                old(self).trace(),
                final(self).trace(),
                select_writes(old(self).page(), CONFIG_PAGE),
                1,
                final(buffer)@,
                r is Ok,
            ),
            extends_by(old(self).trace(), final(self).trace(), select_writes(old(self).page(), CONFIG_PAGE), false)
                ==> final(buffer)@ == old(buffer)@,
            final(self).page() == cache_after(r is Ok, CONFIG_PAGE),
    {
        self.query(1, buffer)
    }

    /// Reads the configuration register, which holds the software-shutdown
    /// bit, into `buffer`.
    pub fn get_software_shutdown_mode(&mut self, buffer: &mut [u8]) -> (r: Result<(), T::Error>)
        ensures
            queried(
                old(self).trace(),
                final(self).trace(),
                select_writes(old(self).page(), CONFIG_PAGE),
                0,
                final(buffer)@,
                r is Ok,
            ),
            extends_by(old(self).trace(), final(self).trace(), select_writes(old(self).page(), CONFIG_PAGE), false)
                ==> final(buffer)@ == old(buffer)@,
            final(self).page() == cache_after(r is Ok, CONFIG_PAGE),
    {
        self.query(0, buffer)
    }

    /// Leaves software shutdown: reads the configuration register and writes
    /// it back with bit 0 set, both on the configuration page.
    pub fn set_software_shutdown_mode_off(&mut self) -> (r: Result<(), T::Error>)
        ensures
            shutdown_cleared(
                old(self).trace(),
                final(self).trace(),
                select_writes(old(self).page(), CONFIG_PAGE),
                r is Ok,
            ),
            final(self).page() == cache_after(r is Ok, CONFIG_PAGE),
    {
        let ghost t0 = self.trace();
        let ghost sel = select_writes(self.page(), CONFIG_PAGE);
        let mut buf: [u8; 1] = [0];
        let r = self.query(0, &mut buf);
        if r.is_err() {
            return r;
        }
        let ghost t1 = self.trace();
        let value: [u8; 2] = [0, buf[0] | 1];
        let r = self.write(value.as_slice());
        proof {
            let n = t0.len() + sel.len();
            let t2 = self.trace();
            assert(value@ =~= seq![0u8, buf@[0] | 1u8]);
            assert(t2.subrange(0, n as int) =~= t1.drop_last());
            assert(t2[n as int] == t1.last());
        }
        r
    }
    /// Sets the scaling register of every LED to `scale`: the first image on
    /// page 2, then the second on page 3, each with command byte 0.
    pub fn set_all_led_scales(&mut self, scale: u8) -> (r: Result<(), T::Error>)
        ensures
            extends_by(
                old(self).trace(),
                final(self).trace(),
                step_writes(old(self).page(), 2, scale_image(FIRST_LEN as nat, scale))
                    + step_writes(PageCache::Page(2), 3, scale_image(SECOND_LEN as nat, scale)),
                r is Ok,
            ),
            final(self).page() == cache_after(r is Ok, 3),
    {
        let mut first: [u8; 181] = [scale; 181];
        first[0] = 0;
        let mut second: [u8; 178] = [scale; 178];
        second[0] = 0;
        proof {
            assert(first@ =~= scale_image(FIRST_LEN as nat, scale));
            assert(second@ =~= scale_image(SECOND_LEN as nat, scale));
        }
        self.two_steps(2, first.as_slice(), 3, second.as_slice())
    }

    /// Enables the first LEDs with the mask 0xaa, on page 0 and then page 2.
    pub fn set_led_0(&mut self) -> (r: Result<(), T::Error>)
        ensures
            extends_by(
                old(self).trace(),
                final(self).trace(),
                step_writes(old(self).page(), 0, seq![0u8, 0xaau8])
                    + step_writes(PageCache::Page(0), 2, seq![0u8, 0xaau8]),
                r is Ok,
            ),
            final(self).page() == cache_after(r is Ok, 2),
    {
        let mask: [u8; 2] = [0, 0xaa];
        proof { assert(mask@ =~= seq![0u8, 0xaau8]); }
        self.two_steps(0, mask.as_slice(), 2, mask.as_slice())
    }

    /// Enables a full row of LEDs from register 1, on page 0 and then page 2.
    pub fn set_led_1(&mut self) -> (r: Result<(), T::Error>)
        ensures
            extends_by(
                old(self).trace(),
                final(self).trace(),
                step_writes(old(self).page(), 0, enable_row()) + step_writes(PageCache::Page(0), 2, enable_row()),
                r is Ok,
            ),
            final(self).page() == cache_after(r is Ok, 2),
    {
        let row: [u8; 4] = [1, 0xff, 0xff, 0xff];
        proof { assert(row@ =~= enable_row()); }
        self.two_steps(0, row.as_slice(), 2, row.as_slice())
    }

    /// Enables a full row of LEDs from register 1 on each of pages 0 to 3,
    /// in that order.
    pub fn set_leds(&mut self) -> (r: Result<(), T::Error>)
        ensures
            extends_by(
                old(self).trace(),
                final(self).trace(),
                step_writes(old(self).page(), 0, enable_row())
                    + step_writes(PageCache::Page(0), 1, enable_row())
                    + step_writes(PageCache::Page(1), 2, enable_row())
                    + step_writes(PageCache::Page(2), 3, enable_row()),
                r is Ok,
            ),
            final(self).page() == cache_after(r is Ok, 3),
    {
        let row: [u8; 4] = [1, 0xff, 0xff, 0xff];
        proof { assert(row@ =~= enable_row()); }
        let ghost t0 = self.trace();
        let ghost s1 = step_writes(self.page(), 0, enable_row()) + step_writes(PageCache::Page(0), 1, enable_row());
        let ghost s2 = step_writes(PageCache::Page(1), 2, enable_row()) + step_writes(PageCache::Page(2), 3, enable_row());
        let r = self.two_steps(0, row.as_slice(), 1, row.as_slice());
        if r.is_err() {
            proof {
                lemma_stopped(t0, self.trace(), s1, s2);
                assert(s1 + s2 =~= step_writes(old(self).page(), 0, enable_row())
                    + step_writes(PageCache::Page(0), 1, enable_row())
                    + step_writes(PageCache::Page(1), 2, enable_row())
                    + step_writes(PageCache::Page(2), 3, enable_row()));
            }
            return r;
        }
        let ghost t1 = self.trace();
        let r = self.two_steps(2, row.as_slice(), 3, row.as_slice());
        proof {
            lemma_then(t0, t1, self.trace(), s1, s2, r is Ok);
            assert(s1 + s2 =~= step_writes(old(self).page(), 0, enable_row())
                + step_writes(PageCache::Page(0), 1, enable_row())
                + step_writes(PageCache::Page(1), 2, enable_row())
                + step_writes(PageCache::Page(2), 3, enable_row()));
        }
        r
    }

    /// Uploads a frame: the first page image while page 0 is selected, then
    /// the second while page 1 is.
    pub fn write_led_matrix(&mut self, matrix: &LedMatrix) -> (r: Result<(), T::Error>)
        ensures
            extends_by(
                old(self).trace(),
                final(self).trace(),
                step_writes(old(self).page(), 0, matrix@.first) + step_writes(PageCache::Page(0), 1, matrix@.second),
                r is Ok,
            ),
            final(self).page() == cache_after(r is Ok, 1),
    {
        self.two_steps(0, matrix.first_page(), 1, matrix.second_page())
    }
}

} // verus!
