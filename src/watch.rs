//! The lifecycle of a watch on a store path: registered, notifying on each
//! signal of its event, torn down exactly once.
use vstd::prelude::*;
use vstd::string::StringSliceAdditionalSpecFns;
use crate::ioctl::StoreError;

verus! {

/// The identifier the device hands back when a watch is registered. Its
/// bytes mean nothing to the client: they are only passed back to remove the
/// watch.
pub struct WatchToken {
    bytes: Vec<u8>,
}

impl View for WatchToken {
    type V = Seq<u8>;

    closed spec fn view(&self) -> Seq<u8> {
        self.bytes@
    }
}

impl WatchToken {
    /// A token made of the bytes of a registration reply.
    pub fn new(bytes: Vec<u8>) -> (r: WatchToken)
        ensures
            r@ == bytes@,
    {
        WatchToken { bytes }
    }

    /// The bytes to send back to remove the watch.
    pub fn as_bytes(&self) -> (r: &[u8])
        ensures
            r@ == self@,
    {
        self.bytes.as_slice()
    }
}

/// What a watch session is: the path it watches, the token of its
/// registration, and whether it is still registered.
pub ghost struct WatchModel {
    pub path: Seq<char>,
    pub token: Seq<u8>,
    pub active: bool,
}

/// A signal of the event: an active session stays as it is and yields its
/// path; a torn down one yields nothing.
pub open spec fn signal_step(m: WatchModel) -> (WatchModel, Option<Seq<char>>) {
    if m.active {
        (m, Some(m.path))
    } else {
        (m, None)
    }
}

/// Teardown: the session is no longer registered; the token to deregister is
/// handed out if, and only if, the session was still registered.
pub open spec fn teardown_step(m: WatchModel) -> (WatchModel, Option<Seq<u8>>) {
    (
        WatchModel { active: false, ..m },
        if m.active {
            Some(m.token)
        } else {
            None
        },
    )
}

/// The state after `n` signals, and the items they yielded, in order.
pub open spec fn run_signals(m: WatchModel, n: nat) -> (WatchModel, Seq<Seq<char>>)
    decreases n,
{
    if n == 0 {
        (m, seq![])
    } else {
        let (m1, items) = run_signals(m, (n - 1) as nat);
        let (m2, item) = signal_step(m1);
        (
            m2,
            match item {
                Some(p) => items.push(p),
                None => items,
            },
        )
    }
}

/// What to do on a signal of the watch event.
pub enum SignalAction {
    /// Reset the event to unset, so that the next signal is seen, and yield
    /// the watched path.
    ResetAndYield(String),
    /// The session is torn down: the stream has ended.
    Finished,
}

/// The item a signal action yields, if any.
pub open spec fn action_item(a: SignalAction) -> Option<Seq<char>> {
    match a {
        SignalAction::ResetAndYield(p) => Some(p@),
        SignalAction::Finished => None,
    }
}

/// A registered watch.
pub struct WatchSession {
    path: String,
    token: WatchToken,
    active: bool,
}

impl View for WatchSession {
    type V = WatchModel;

    closed spec fn view(&self) -> WatchModel {
        WatchModel { path: self.path@, token: self.token@, active: self.active }
    }
}

impl WatchSession {
    /// The session that a registration request on `path` opens: active, with
    /// the token of the reply. A failed registration opens none and leaves
    /// nothing to clean up.
    pub fn register(path: &str, reply: Result<WatchToken, StoreError>) -> (r: Result<
        WatchSession,
        StoreError,
    >)
        ensures
            r is Ok <==> reply is Ok,
            r matches Ok(s) ==> s@.active && s@.path == path@ && (reply matches Ok(t) && s@.token
                == t@),
            r matches Err(e) ==> reply == Err::<WatchToken, StoreError>(e),
    {
        match reply {
            Ok(token) => Ok(WatchSession { path: path.to_owned(), token, active: true }),
            Err(e) => Err(e),
        }
    }

    /// Whether the watch is still registered.
    pub fn is_active(&self) -> (r: bool)
        ensures
            r == self@.active,
    {
        self.active
    }

    /// The watched path.
    pub fn path(&self) -> (r: &str)
        ensures
            r@ == self@.path,
    {
        self.path.as_str()
    }

    /// Handles one signal of the watch event.
    pub fn on_signal(&mut self) -> (r: SignalAction)
        ensures
            final(self)@ == signal_step(old(self)@).0,
            action_item(r) == signal_step(old(self)@).1,
    {
        if self.active {
            SignalAction::ResetAndYield(self.path.clone())
        } else {
            SignalAction::Finished
        }
    }

    /// Ends the session: hands out the token to deregister the first time,
    /// nothing afterwards.
    pub fn teardown(&mut self) -> (r: Option<WatchToken>)
        ensures
            final(self)@ == teardown_step(old(self)@).0,
            r is Some <==> teardown_step(old(self)@).1 is Some,
            r matches Some(t) ==> teardown_step(old(self)@).1 == Some(t@),
    {
        if self.active {
            self.active = false;
            let bytes = self.token.bytes.clone();
            Some(WatchToken { bytes })
        } else {
            None
        }
    }
}

/// The bytes of the path a watch registration points the device at: the
/// path's UTF-8 bytes and one NUL. A path that holds a NUL byte cannot be
/// sent this way and is refused.
pub fn watch_path_bytes(path: &str) -> (r: Result<Vec<u8>, StoreError>)
    ensures
        r is Ok <==> !path.spec_bytes().contains(0u8),
        r matches Ok(b) ==> b@ == path.spec_bytes().push(0u8),
        r matches Err(e) ==> e == StoreError::InvalidEncoding,
{
    let bytes = path.as_bytes();
    let mut out: Vec<u8> = Vec::new();
    let mut i: usize = 0;
    while i < bytes.len()
        invariant
            0 <= i <= bytes@.len(),
            bytes@ == path.spec_bytes(),
            out@ == bytes@.subrange(0, i as int),
            forall|k: int| 0 <= k < i ==> bytes@[k] != 0,
        decreases bytes@.len() - i,
    {
        if bytes[i] == 0 {
            proof {
                assert(bytes@.contains(0u8));
            }
            return Err(StoreError::InvalidEncoding);
        }
        out.push(bytes[i]);
        proof {
            assert(bytes@.subrange(0, i + 1) =~= bytes@.subrange(0, i as int).push(bytes@[i as int]));
        }
        i = i + 1;
    }
    proof {
        assert(bytes@.subrange(0, bytes@.len() as int) =~= bytes@);
        assert(!bytes@.contains(0u8));
    }
    out.push(0u8);
    Ok(out)
}

/// Each signal of an active session yields exactly one item, the watched
/// path, and leaves the session active for the next signal.
pub proof fn lemma_signals_yield_path(m: WatchModel, n: nat)
    requires
        m.active,
    ensures
        run_signals(m, n).0 == m,
        run_signals(m, n).1 == Seq::new(n, |i: int| m.path),
    decreases n,
{
    if n > 0 {
        lemma_signals_yield_path(m, (n - 1) as nat);
        assert(run_signals(m, n).1 =~= Seq::new(n, |i: int| m.path));
    }
}

/// Tearing down an active session, after any number of signals (none
/// included), hands out its token exactly once: a second teardown hands out
/// nothing.
pub proof fn lemma_teardown_once(m: WatchModel, n: nat)
    requires
        m.active,
    ensures
        teardown_step(run_signals(m, n).0).1 == Some(m.token),
        teardown_step(teardown_step(run_signals(m, n).0).0).1 is None,
{
    lemma_signals_yield_path(m, n);
}

} // verus!
