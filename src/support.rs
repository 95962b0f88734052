use vstd::prelude::*;

use rand::rngs::StdRng;
use rand::Rng;

verus! {

/// The letter of row `row` of a sample text.
pub open spec fn sample_letter(row: int) -> char {
    (((97 + row % 256) % 256) as u8) as char
}

/// Row `row` of a sample text of `rows` rows: `cols` copies of its letter,
/// and a newline unless it is the last.
pub open spec fn sample_line(row: int, rows: int, cols: int) -> Seq<char> {
    Seq::new(cols as nat, |_i: int| sample_letter(row)) + if row < rows - 1 {
        seq!['\n']
    } else {
        Seq::empty()
    }
}

/// The first `n` rows of a sample text of `rows` rows.
pub open spec fn sample_rows(n: int, rows: int, cols: int) -> Seq<char>
    decreases n,
{
    if n <= 0 {
        Seq::empty()
    } else {
        sample_rows(n - 1, rows, cols) + sample_line(n - 1, rows, cols)
    }
}

/// Relies on `String::push`: appends one character.
#[verifier::external_body]
fn push_char(s: &mut String, c: char)
    ensures
        final(s)@ == old(s)@.push(c),
{
    s.push(c);
}

/// `rows` rows of `cols` copies of one letter each (`a`, `b`, ...), joined
/// by newlines.
pub fn sample_text(rows: usize, cols: usize) -> (r: String)
    ensures
        r@ == sample_rows(rows as int, rows as int, cols as int),
{
    let mut text = String::new();
    let mut row: usize = 0;
    while row < rows
        invariant
            row <= rows,
            text@ == sample_rows(row as int, rows as int, cols as int),
        decreases rows - row,
    {
        let c: char = (((97 + (row % 256) as u64) % 256) as u8) as char;
        let ghost before = text@;
        let mut k: usize = 0;
        while k < cols
            invariant
                k <= cols,
                text@ == before + Seq::new(k as nat, |_i: int| sample_letter(row as int)),
                c == sample_letter(row as int),
            decreases cols - k,
        {
            push_char(&mut text, c);
            k = k + 1;
            proof {
                assert(text@ =~= before + Seq::new(k as nat, |_i: int| sample_letter(row as int)));
            }
        }
        if row + 1 < rows {
            push_char(&mut text, '\n');
        }
        proof {
            assert(text@ =~= sample_rows(row + 1, rows as int, cols as int));
        }
        row = row + 1;
    }
    text
}

#[verifier::external_type_specification]
#[verifier::external_body]
pub struct ExStdRng(StdRng);

/// Relies on `rand::Rng::gen_range` (rand 0.8) over `lo..=hi`: a number in
/// that range. It panics on an empty range, which the precondition rules out.
#[verifier::external_body]
fn gen_range_inclusive(rng: &mut StdRng, lo: usize, hi: usize) -> (r: usize)
    requires
        lo <= hi,
    ensures
        lo <= r <= hi,
{
    rng.gen_range(lo..=hi)
}

/// Identifies a replica of a buffer.
pub type ReplicaId = u16;

/// A message and the replica that sent it.
pub struct Envelope<T> {
    pub message: T,
    pub sender: ReplicaId,
}

/// A simulated network of replicas: the peers, sorted by id, each with an
/// inbox, and every message ever sent.
pub struct Network<T> {
    peers: Vec<ReplicaId>,
    inboxes: Vec<Vec<Envelope<T>>>,
    all_messages: Vec<T>,
}

impl<T> Network<T> {
    pub closed spec fn peers_spec(&self) -> Seq<ReplicaId> {
        self.peers@
    }

    /// The number of envelopes waiting in the inbox of peer `i`.
    pub closed spec fn inbox_len(&self, i: int) -> nat {
        self.inboxes@[i]@.len()
    }

    /// The messages waiting in the inbox of peer `i`, oldest first.
    pub closed spec fn inbox_messages(&self, i: int) -> Seq<T> {
        self.inboxes@[i]@.map_values(|e: Envelope<T>| e.message)
    }

    pub closed spec fn messages_spec(&self) -> Seq<T> {
        self.all_messages@
    }

    pub closed spec fn wf(&self) -> bool {
        &&& self.peers@.len() == self.inboxes@.len()
        &&& forall|i: int, j: int| 0 <= i < j < self.peers@.len() ==> self.peers@[i] < self.peers@[j]
    }

    pub fn new() -> (r: Network<T>)
        ensures
            r.wf(),
            r.peers_spec().len() == 0,
    {
        Network { peers: Vec::new(), inboxes: Vec::new(), all_messages: Vec::new() }
    }

    /// Adds a peer with an empty inbox, emptying the inbox of a peer that is
    /// already there.
    pub fn add_peer(&mut self, id: ReplicaId)
        requires
            old(self).wf(),
        ensures
            final(self).wf(),
            forall|x: ReplicaId|
                final(self).peers_spec().contains(x) <==> old(self).peers_spec().contains(x) || x == id,
            forall|i: int|
                0 <= i < final(self).peers_spec().len() && final(self).peers_spec()[i] == id
                    ==> final(self).inbox_len(i) == 0,
            forall|i: int|
                0 <= i < final(self).peers_spec().len() && final(self).peers_spec()[i] != id
                    ==> exists|j: int|
                    0 <= j < old(self).peers_spec().len() && old(self).peers_spec()[j]
                        == final(self).peers_spec()[i] && old(self).inbox_len(j)
                        == final(self).inbox_len(i),
    {
        let mut i: usize = 0;
        while i < self.peers.len()
            invariant
                self.wf(),
                self.peers@ == old(self).peers@,
                self.inboxes@ == old(self).inboxes@,
                i <= self.peers@.len(),
                forall|k: int| 0 <= k < i ==> self.peers@[k] < id,
            ensures
                i < self.peers@.len() ==> self.peers@[i as int] >= id,
            decreases self.peers@.len() - i,
        {
            if self.peers[i] >= id {
                break;
            }
            i = i + 1;
        }
        let ghost peers0 = self.peers@;
        let ghost inboxes0 = self.inboxes@;
        if i < self.peers.len() && self.peers[i] == id {
            self.inboxes.remove(i);
            self.inboxes.insert(i, Vec::new());
            proof {
                assert forall|x: ReplicaId| self.peers_spec().contains(x) <==> old(self).peers_spec().contains(x)
                    || x == id by {
                    if x == id {
                        assert(self.peers@[i as int] == id);
                    }
                }
                assert forall|k: int|
                    0 <= k < self.peers_spec().len() && self.peers_spec()[k] != id implies exists|j: int|
                        0 <= j < old(self).peers_spec().len() && old(self).peers_spec()[j]
                            == self.peers_spec()[k] && old(self).inbox_len(j) == self.inbox_len(k) by {
                    assert(k != i);
                    assert(self.inboxes@[k] == inboxes0[k]);
                    assert(old(self).peers_spec()[k] == self.peers_spec()[k] && old(self).inbox_len(k)
                        == self.inbox_len(k));
                }
                assert forall|k: int|
                    0 <= k < self.peers_spec().len() && self.peers_spec()[k] == id implies self.inbox_len(k) == 0 by {
                    if k != i as int {
                        if k < i {
                            assert(self.peers@[k] < self.peers@[i as int]);
                        } else {
                            assert(self.peers@[i as int] < self.peers@[k]);
                        }
                    }
                }
            }
        } else {
            self.peers.insert(i, id);
            self.inboxes.insert(i, Vec::new());
            proof {
                assert forall|a: int, b: int| 0 <= a < b < self.peers@.len() implies self.peers@[a]
                    < self.peers@[b] by {
                    if b < i {
                        assert(self.peers@[a] == peers0[a] && self.peers@[b] == peers0[b]);
                    } else if b == i {
                        assert(self.peers@[a] == peers0[a]);
                    } else if a < i {
                        assert(self.peers@[b] == peers0[b - 1]);
                        assert(peers0[a] < id);
                        assert(peers0[i as int] >= id);
                        assert(peers0[i as int] != id);
                        if b - 1 > i {
                            assert(peers0[i as int] < peers0[b - 1]);
                        }
                    } else if a == i {
                        assert(self.peers@[b] == peers0[b - 1]);
                        assert(peers0[i as int] > id);
                        if b - 1 > i {
                            assert(peers0[i as int] < peers0[b - 1]);
                        }
                    } else {
                        assert(self.peers@[a] == peers0[a - 1] && self.peers@[b] == peers0[b - 1]);
                    }
                }
                assert forall|x: ReplicaId| self.peers_spec().contains(x) <==> old(self).peers_spec().contains(x)
                    || x == id by {
                    if x == id {
                        assert(self.peers@[i as int] == id);
                    }
                    if peers0.contains(x) {
                        let j = choose|j: int| 0 <= j < peers0.len() && peers0[j] == x;
                        if j < i {
                            assert(self.peers@[j] == x);
                        } else {
                            assert(self.peers@[j + 1] == x);
                        }
                    }
                    if self.peers_spec().contains(x) && x != id {
                        let j = choose|j: int| 0 <= j < self.peers@.len() && self.peers@[j] == x;
                        if j < i {
                            assert(peers0[j] == x);
                        } else {
                            assert(peers0[j - 1] == x);
                        }
                    }
                }
                assert forall|k: int|
                    0 <= k < self.peers_spec().len() && self.peers_spec()[k] != id implies exists|j: int|
                        0 <= j < old(self).peers_spec().len() && old(self).peers_spec()[j]
                            == self.peers_spec()[k] && old(self).inbox_len(j) == self.inbox_len(k) by {
                    if k < i {
                        assert(peers0[k] == self.peers@[k] && inboxes0[k] == self.inboxes@[k]);
                        assert(old(self).peers_spec()[k] == self.peers_spec()[k] && old(self).inbox_len(k)
                            == self.inbox_len(k));
                    } else {
                        assert(peers0[k - 1] == self.peers@[k] && inboxes0[k - 1] == self.inboxes@[k]);
                        assert(old(self).peers_spec()[k - 1] == self.peers_spec()[k] && old(
                            self,
                        ).inbox_len(k - 1) == self.inbox_len(k));
                    }
                }
                assert forall|k: int|
                    0 <= k < self.peers_spec().len() && self.peers_spec()[k] == id implies self.inbox_len(k) == 0 by {
                    if k < i {
                        assert(peers0[k] < id);
                    } else if k > i {
                        assert(self.peers@[k] == peers0[k - 1]);
                        if k - 1 > i {
                            assert(peers0[i as int] < peers0[k - 1]);
                        }
                    }
                }
            }
        }
    }

    /// The index of peer `id`.
    fn peer_index(&self, id: ReplicaId) -> (r: usize)
        requires
            self.wf(),
            self.peers_spec().contains(id),
        ensures
            r < self.peers_spec().len(),
            self.peers_spec()[r as int] == id,
    {
        let mut i: usize = 0;
        while i < self.peers.len()
            invariant
                self.wf(),
                i <= self.peers@.len(),
                self.peers_spec().contains(id),
                forall|k: int| 0 <= k < i ==> self.peers@[k] != id,
            decreases self.peers@.len() - i,
        {
            if self.peers[i] == id {
                return i;
            }
            i = i + 1;
        }
        proof {
            let k = choose|k: int| 0 <= k < self.peers@.len() && self.peers@[k] == id;
        }
        0
    }

    /// Takes a random number of the oldest messages waiting for `receiver`.
    pub fn receive(&mut self, receiver: ReplicaId, rng: &mut StdRng) -> (r: Vec<T>)
        requires
            old(self).wf(),
            old(self).peers_spec().contains(receiver),
        ensures
            final(self).wf(),
            final(self).peers_spec() == old(self).peers_spec(),
            final(self).messages_spec() == old(self).messages_spec(),
            forall|i: int|
                0 <= i < old(self).peers_spec().len() && old(self).peers_spec()[i] != receiver
                    ==> final(self).inbox_len(i) == old(self).inbox_len(i)
                    && final(self).inbox_messages(i) == old(self).inbox_messages(i),
            forall|i: int|
                0 <= i < old(self).peers_spec().len() && old(self).peers_spec()[i] == receiver
                    ==> final(self).inbox_len(i) + r@.len() == old(self).inbox_len(i)
                    && r@ == old(self).inbox_messages(i).take(r@.len() as int)
                    && final(self).inbox_messages(i) == old(self).inbox_messages(i).skip(r@.len() as int),
    {
        let i = self.peer_index(receiver);
        let mut inbox = self.inboxes.remove(i);
        let count = gen_range_inclusive(rng, 0, inbox.len());
        let ghost whole = inbox@;
        let rest = inbox.split_off(count);
        let mut messages: Vec<T> = Vec::new();
        let ghost first = inbox@;
        while inbox.len() > 0
            invariant
                messages@ + inbox@.map_values(|e: Envelope<T>| e.message) == first.map_values(
                    |e: Envelope<T>| e.message,
                ),
            decreases inbox@.len(),
        {
            let ghost before = inbox@;
            let envelope = inbox.remove(0);
            messages.push(envelope.message);
            proof {
                assert(before.map_values(|e: Envelope<T>| e.message) =~= seq![envelope.message]
                    + inbox@.map_values(|e: Envelope<T>| e.message));
                assert(messages@ + inbox@.map_values(|e: Envelope<T>| e.message) =~= first.map_values(
                    |e: Envelope<T>| e.message,
                ));
            }
        }
        proof {
            assert(messages@ =~= first.map_values(|e: Envelope<T>| e.message));
            assert(first =~= whole.take(count as int));
            assert(rest@ =~= whole.skip(count as int));
            assert(messages@ =~= whole.map_values(|e: Envelope<T>| e.message).take(count as int));
            assert(rest@.map_values(|e: Envelope<T>| e.message) =~= whole.map_values(
                |e: Envelope<T>| e.message,
            ).skip(count as int));
        }
        self.inboxes.insert(i, rest);
        proof {
            assert forall|k: int|
                0 <= k < old(self).peers_spec().len() && old(self).peers_spec()[k] == receiver
                    implies k == i by {
                if k < i {
                    assert(self.peers@[k] < self.peers@[i as int]);
                } else if k > i {
                    assert(self.peers@[i as int] < self.peers@[k]);
                }
            }
            assert forall|k: int| 0 <= k < old(self).peers_spec().len() && k != i implies self.inboxes@[k]
                == old(self).inboxes@[k] by {}
        }
        messages
    }

    /// Whether every inbox is empty.
    pub fn is_idle(&self) -> (r: bool)
        requires
            self.wf(),
        ensures
            r == forall|i: int| 0 <= i < self.peers_spec().len() ==> self.inbox_len(i) == 0,
    {
        let mut i: usize = 0;
        while i < self.inboxes.len()
            invariant
                self.wf(),
                i <= self.inboxes@.len(),
                forall|k: int| 0 <= k < i ==> self.inbox_len(k) == 0,
            decreases self.inboxes@.len() - i,
        {
            if self.inboxes[i].len() > 0 {
                proof {
                    assert(self.inbox_len(i as int) > 0);
                }
                return false;
            }
            i = i + 1;
        }
        true
    }

    /// Whether messages wait for peer `receiver`.
    pub fn has_unreceived(&self, receiver: ReplicaId) -> (r: bool)
        requires
            self.wf(),
            self.peers_spec().contains(receiver),
        ensures
            r == exists|i: int|
                0 <= i < self.peers_spec().len() && self.peers_spec()[i] == receiver && self.inbox_len(
                    i,
                ) > 0,
    {
        let mut i: usize = 0;
        while i < self.peers.len()
            invariant
                self.wf(),
                i <= self.peers@.len(),
                self.peers_spec().contains(receiver),
                forall|k: int| 0 <= k < i ==> self.peers@[k] != receiver,
            decreases self.peers@.len() - i,
        {
            if self.peers[i] == receiver {
                proof {
                    assert forall|k: int| 0 <= k < self.peers@.len() && self.peers@[k] == receiver implies k == i by {
                        if k < i {
                        } else if k > i {
                            assert(self.peers@[i as int] < self.peers@[k]);
                        }
                    }
                }
                return self.inboxes[i].len() > 0;
            }
            i = i + 1;
        }
        false
    }
}


impl<T: Clone> Network<T> {
    /// Delivers copies of `messages` from `sender` to every other peer: one
    /// to three copies of each, each at a random place after the last
    /// envelope from `sender`, so that each peer gets a sender's messages in
    /// order, maybe more than once.
    pub fn broadcast(&mut self, sender: ReplicaId, messages: Vec<T>, rng: &mut StdRng)
        requires
            old(self).wf(),
        ensures
            final(self).wf(),
            final(self).peers_spec() == old(self).peers_spec(),
            final(self).messages_spec() == old(self).messages_spec() + messages@,
            forall|i: int|
                0 <= i < old(self).peers_spec().len() && old(self).peers_spec()[i] == sender
                    ==> final(self).inbox_len(i) == old(self).inbox_len(i)
                    && final(self).inbox_messages(i) == old(self).inbox_messages(i),
            forall|i: int|
                0 <= i < old(self).peers_spec().len() && old(self).peers_spec()[i] != sender
                    ==> old(self).inbox_len(i) + messages@.len() <= final(self).inbox_len(i)
                    <= old(self).inbox_len(i) + 3 * messages@.len(),
    {
        let m = messages.len();
        let n = self.peers.len();
        let mut i: usize = 0;
        while i < n
            invariant
                self.wf(),
                n == self.peers@.len(),
                m == messages@.len(),
                self.peers@ == old(self).peers@,
                self.all_messages@ == old(self).all_messages@,
                i <= n,
                forall|k: int| i <= k < n ==> self.inboxes@[k] == old(self).inboxes@[k],
                forall|k: int|
                    0 <= k < i && self.peers@[k] == sender ==> self.inboxes@[k] == old(self).inboxes@[k],
                forall|k: int|
                    0 <= k < i && self.peers@[k] != sender ==> old(self).inbox_len(k) + m
                        <= self.inbox_len(k) <= old(self).inbox_len(k) + 3 * m,
            decreases n - i,
        {
            if self.peers[i] != sender {
                let ghost before = self.inboxes@;
                let mut inbox = self.inboxes.remove(i);
                let ghost len0 = inbox@.len();
                let mut j: usize = 0;
                while j < m
                    invariant
                        m == messages@.len(),
                        j <= m,
                        len0 + j <= inbox@.len() <= len0 + 3 * j,
                    decreases m - j,
                {
                    let mut min_index: usize = 0;
                    let mut x = inbox.len();
                    while x > 0
                        invariant
                            x <= inbox@.len(),
                            min_index <= inbox@.len(),
                        decreases x,
                    {
                        if inbox[x - 1].sender == sender {
                            min_index = x;
                            break;
                        }
                        x = x - 1;
                    }
                    let copies = gen_range_inclusive(rng, 1, 3);
                    let ghost len1 = inbox@.len();
                    let mut c: usize = 0;
                    while c < copies
                        invariant
                            j < m,
                            m == messages@.len(),
                            c <= copies <= 3,
                            min_index <= len1,
                            inbox@.len() == len1 + c,
                        decreases copies - c,
                    {
                        let index = gen_range_inclusive(rng, min_index, inbox.len());
                        inbox.insert(index, Envelope { message: messages[j].clone(), sender });
                        c = c + 1;
                    }
                    j = j + 1;
                }
                self.inboxes.insert(i, inbox);
                proof {
                    assert forall|k: int| 0 <= k < n && k != i implies self.inboxes@[k] == before[k] by {}
                }
            }
            i = i + 1;
        }
        let mut messages = messages;
        self.all_messages.append(&mut messages);
    }
}

} // verus!
