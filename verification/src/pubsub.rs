use vstd::prelude::*;
use std::sync::mpsc::Sender;
use crate::store::hashmap::HashMap;
use crate::store::hashkey::{str_key, lemma_str_key_injective};

verus! {

broadcast use vstd::string::to_string_from_display_ensures_for_str;

/// Declares `std::sync::mpsc::Sender` to the verifier, as an opaque type.
#[verifier::external_type_specification]
#[verifier::external_body]
#[verifier::reject_recursive_types(T)]
pub struct ExSender<T>(Sender<T>);

/// The messages handed to `Sender::send` through a sender, in order, each
/// with whether `send` took it (its receiver was still there).
pub uninterp spec fn message_sends(tx: Sender<String>) -> Seq<(Seq<char>, bool)>;

/// Whether the last send through `tx` was taken.
pub open spec fn took(tx: Sender<String>) -> bool {
    message_sends(tx).last().1
}

/// Sends `msg` to the receiver of `tx`, through `Sender::send`, and returns
/// whether it was taken. Trusted: the sender's record of sends gains `msg`
/// with that flag; whether the receiver is still there to take it is up to
/// the other side of the channel, so the flag itself is left open.
#[verifier::external_body]
fn send_message(tx: &mut Sender<String>, msg: String) -> (ok: bool)
    ensures
        message_sends(*final(tx)) == message_sends(*old(tx)).push((msg@, ok)),
{
    tx.send(msg).is_ok()
}

/// The elements of `v` whose flag in `ok` is set, in order.
pub open spec fn kept<T>(v: Seq<T>, ok: Seq<bool>) -> Seq<T>
    decreases v.len(),
{
    if v.len() == 0 {
        Seq::empty()
    } else {
        let rest = kept(v.drop_last(), ok);
        if ok[v.len() - 1] {
            rest.push(v.last())
        } else {
            rest
        }
    }
}

proof fn lemma_kept_prefix<T>(v: Seq<T>, ok: Seq<bool>, i: int)
    requires
        0 <= i <= v.len(),
        v.len() <= ok.len(),
    ensures
        kept(v.take(i), ok) == kept(v.take(i), ok.take(i)),
    decreases i,
{
    if i > 0 {
        lemma_kept_prefix(v, ok, i - 1);
        assert(v.take(i).drop_last() =~= v.take(i - 1));
        lemma_kept_ok_irrelevant(v.take(i - 1), ok, ok.take(i));
    }
}

proof fn lemma_kept_ok_irrelevant<T>(v: Seq<T>, a: Seq<bool>, b: Seq<bool>)
    requires
        v.len() <= a.len(),
        v.len() <= b.len(),
        forall|j: int| 0 <= j < v.len() ==> a[j] == b[j],
    ensures
        kept(v, a) == kept(v, b),
    decreases v.len(),
{
    if v.len() > 0 {
        lemma_kept_ok_irrelevant(v.drop_last(), a, b);
    }
}

/// Keeps the elements of `v` whose flag in `ok` is set, in order.
pub fn retain_flagged<T>(v: &mut Vec<T>, ok: &Vec<bool>)
    requires
        old(v)@.len() == ok@.len(),
    ensures
        final(v)@ == kept(old(v)@, ok@),
{
    let ghost orig = v@;
    let mut rest: Vec<T> = Vec::new();
    std::mem::swap(v, &mut rest);
    let n = ok.len();
    let mut i: usize = 0;
    while i < n
        invariant
            n == ok@.len(),
            n == orig.len(),
            i <= n,
            rest@ == orig.skip(i as int),
            v@ == kept(orig.take(i as int), ok@),
        decreases n - i,
    {
        let x = rest.remove(0);
        proof {
            assert(orig.take(i + 1).drop_last() =~= orig.take(i as int));
            assert(orig.take(i + 1).last() == x);
        }
        if ok[i] {
            v.push(x);
        }
        i = i + 1;
        assert(rest@ =~= orig.skip(i as int));
    }
    assert(orig.take(n as int) =~= orig);
}

/// A registry of channels, each with the senders of its subscribers.
pub struct PubSub {
    channels: HashMap<String, Vec<Sender<String>>>,
}

impl View for PubSub {
    type V = Map<Seq<char>, Seq<Sender<String>>>;

    /// The subscribers of each channel.
    closed spec fn view(&self) -> Map<Seq<char>, Seq<Sender<String>>> {
        Map::new(
            |c: Seq<char>| self.channels@.contains_key(str_key(c)),
            |c: Seq<char>| self.channels@[str_key(c)]@,
        )
    }
}

impl PubSub {
    /// The well-formedness invariant.
    pub closed spec fn wf(&self) -> bool {
        self.channels.wf()
    }

    /// The number of channels ever subscribed to.
    pub closed spec fn channel_count(&self) -> nat {
        self.channels@.len()
    }

    /// A registry with no channel.
    pub fn new() -> (p: Self)
        ensures
            p.wf(),
            p@ == Map::<Seq<char>, Seq<Sender<String>>>::empty(),
            p.channel_count() == 0,
    {
        let p = PubSub { channels: HashMap::new() };
        assert(p@ =~= Map::<Seq<char>, Seq<Sender<String>>>::empty());
        p
    }

    /// Adds `tx` to the subscribers of `channel`.
    pub fn subscribe(&mut self, channel: &str, tx: Sender<String>)
        requires
            old(self).wf(),
            old(self).channel_count() < usize::MAX / 4,
        ensures
            final(self).wf(),
            final(self)@ == old(self)@.insert(
                channel@,
                if old(self)@.contains_key(channel@) {
                    old(self)@[channel@].push(tx)
                } else {
                    seq![tx]
                },
            ),
            final(self).channel_count() <= old(self).channel_count() + 1,
    {
        let key = channel.to_string();
        let ghost kb = str_key(channel@);
        proof {
            self.channels.lemma_view_finite();
            assert forall|c: Seq<char>| c != channel@ implies str_key(c) != kb by {
                lemma_str_key_injective(c, channel@);
            }
        }
        match self.channels.get_mut(&key) {
            Some(subs) => {
                subs.push(tx);
                proof {
                    assert(self.channels@.dom() =~= old(self).channels@.dom());
                    assert(self@ =~= old(self)@.insert(channel@, old(self)@[channel@].push(tx)));
                }
            },
            None => {
                let mut v: Vec<Sender<String>> = Vec::new();
                v.push(tx);
                self.channels.insert(key, v);
                proof {
                    vstd::set::axiom_set_insert_len(old(self).channels@.dom(), kb);
                    assert(self.channels@.dom() =~= old(self).channels@.dom().insert(kb));
                    assert(self@ =~= old(self)@.insert(channel@, seq![tx]));
                }
            },
        }
    }

    /// Whether one more channel keeps the registry under `usize::MAX / 4`
    /// channels, the bound under which `subscribe` may be called.
    pub fn has_room(&self) -> (b: bool)
        requires
            self.wf(),
        ensures
            b == (self.channel_count() < usize::MAX / 4),
    {
        proof {
            self.channels.lemma_view_finite();
        }
        self.channels.len() < usize::MAX / 4
    }

    /// Sends `message` through each subscriber of `channel`, in order, keeps
    /// the subscribers whose send was taken, in order, and returns how many
    /// they are.
    pub fn publish(&mut self, channel: &str, message: &str) -> (n: usize)
        requires
            old(self).wf(),
        ensures
            final(self).wf(),
            final(self).channel_count() == old(self).channel_count(),
            published(old(self)@, final(self)@, channel@, message@, n as nat),
    {
        let key = channel.to_string();
        let ghost kb = str_key(channel@);
        proof {
            assert forall|c: Seq<char>| c != channel@ implies str_key(c) != kb by {
                lemma_str_key_injective(c, channel@);
            }
        }
        match self.channels.get_mut(&key) {
            Some(subs) => {
                let ghost before = subs@;
                assert(before == old(self)@[channel@]);
                let mut pending: Vec<Sender<String>> = Vec::new();
                std::mem::swap(subs, &mut pending);
                let n = pending.len();
                let mut sent: Vec<Sender<String>> = Vec::new();
                let mut ok: Vec<bool> = Vec::new();
                let mut i: usize = 0;
                while i < n
                    invariant
                        n == before.len(),
                        i <= n,
                        pending@ == before.skip(i as int),
                        sent@.len() == i,
                        ok@.len() == i,
                        forall|j: int|
                            0 <= j < i ==> message_sends(#[trigger] sent@[j]) == message_sends(
                                before[j],
                            ).push((message@, ok@[j])),
                    decreases n - i,
                {
                    let mut tx = pending.remove(0);
                    let delivered = send_message(&mut tx, message.to_string());
                    sent.push(tx);
                    ok.push(delivered);
                    i = i + 1;
                    assert(pending@ =~= before.skip(i as int));
                }
                proof {
                    assert(ok@ =~= sent@.map_values(|t: Sender<String>| took(t))) by {
                        assert forall|j: int| 0 <= j < n implies ok@[j] == took(sent@[j]) by {
                            assert(message_sends(sent@[j]).last() == (message@, ok@[j]));
                        }
                    }
                }
                let ghost all = sent@;
                retain_flagged(&mut sent, &ok);
                let remaining = sent.len();
                *subs = sent;
                proof {
                    assert(self.channels@.dom() =~= old(self).channels@.dom());
                    assert(self@ =~= old(self)@.insert(channel@, survivors(all)));
                }
                remaining
            },
            None => {
                assert(self@ =~= old(self)@);
                0
            },
        }
    }
}

/// The subscribers, after their send, whose send was taken, in order.
pub open spec fn survivors(sent: Seq<Sender<String>>) -> Seq<Sender<String>> {
    kept(sent, sent.map_values(|t: Sender<String>| took(t)))
}

/// What a publish of `message` on `channel` that reports `n` subscribers
/// leaves: nothing changes and `n` is 0 when nobody subscribed to it; else
/// `message` was sent through each subscriber once, in order (`sent` being
/// the subscribers after their send), the subscribers whose send was taken
/// stay, in order, the others are dropped, and `n` counts those that stay.
pub open spec fn published(
    before: Map<Seq<char>, Seq<Sender<String>>>,
    after: Map<Seq<char>, Seq<Sender<String>>>,
    channel: Seq<char>,
    message: Seq<char>,
    n: nat,
) -> bool {
    if before.contains_key(channel) {
        exists|sent: Seq<Sender<String>>|
            {
                &&& sent.len() == before[channel].len()
                &&& forall|j: int|
                    0 <= j < sent.len() ==> message_sends(#[trigger] sent[j]) == message_sends(
                        before[channel][j],
                    ).push((message, took(sent[j])))
                &&& after == before.insert(channel, #[trigger] survivors(sent))
                &&& n == survivors(sent).len()
            }
    } else {
        n == 0 && after == before
    }
}

/// The channels a connection subscribed to, each once.
pub struct Client {
    channels: Vec<String>,
}

impl Client {
    /// The channels subscribed to, in order.
    pub closed spec fn channels(&self) -> Seq<Seq<char>> {
        self.channels@.map_values(|c: String| c@)
    }

    /// A connection subscribed to no channel.
    pub fn new() -> (c: Self)
        ensures
            c.channels() == Seq::<Seq<char>>::empty(),
    {
        let c = Client { channels: Vec::new() };
        assert(c.channels() =~= Seq::<Seq<char>>::empty());
        c
    }

    /// The number of channels subscribed to.
    pub fn count(&self) -> (n: usize)
        ensures
            n == self.channels().len(),
    {
        self.channels.len()
    }

    /// Records a subscription to `channel`, unless there is one; returns the
    /// number of channels subscribed to afterwards.
    pub fn add_channel(&mut self, channel: &str) -> (n: usize)
        requires
            old(self).channels().len() < usize::MAX,
        ensures
            final(self).channels() == with_channel(old(self).channels(), channel@),
            n == final(self).channels().len(),
    {
        let m = self.channels.len();
        let mut i: usize = 0;
        while i < m
            invariant
                m == self.channels@.len(),
                i <= m,
                self.channels@ == old(self).channels@,
                forall|j: int| 0 <= j < i ==> self.channels@[j]@ != channel@,
            decreases m - i,
        {
            if crate::commands::handlers::bytes_eq(self.channels[i].as_str().as_bytes(), channel.as_bytes()) {
                proof {
                    vstd::utf8::encode_utf8_decode_utf8(self.channels@[i as int]@);
                    vstd::utf8::encode_utf8_decode_utf8(channel@);
                    assert(self.channels()[i as int] == channel@);
                    assert(self.channels().contains(channel@));
                }
                return m;
            }
            i = i + 1;
        }
        proof {
            assert(!self.channels().contains(channel@)) by {
                if self.channels().contains(channel@) {
                    let j = choose|j: int| 0 <= j < m && self.channels()[j] == channel@;
                    assert(self.channels@[j]@ == channel@);
                }
            }
        }
        self.channels.push(channel.to_string());
        assert(self.channels() =~= old(self).channels().push(channel@));
        m + 1
    }
}

/// `cs` with `channel` added at the end, unless it is there.
pub open spec fn with_channel(cs: Seq<Seq<char>>, channel: Seq<char>) -> Seq<Seq<char>> {
    if cs.contains(channel) {
        cs
    } else {
        cs.push(channel)
    }
}

} // verus!
