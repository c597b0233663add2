//! A private wallet: the user's notes, which of them are spent, and a local
//! copy of the commitment tree.
use vstd::prelude::*;
use crate::field::{random_field_element, Fe};
use crate::merkle::{lemma_path_leads_to_root, leaf_at, path_root, two_pow, MerklePath, MerkleTree, DEFAULT_TREE_HEIGHT};
use crate::note::{note_commitment, Note};

verus! {

/// A note held by the wallet, with its leaf index and whether it is spent.
#[derive(Clone, Copy, Debug, PartialEq, Eq, Structural)]
pub struct WalletNote {
    pub note: Note,
    pub leaf_index: usize,
    pub spent: bool,
}

/// The total amount of the unspent notes among `notes`.
pub open spec fn unspent_total(notes: Seq<WalletNote>) -> int
    decreases notes.len(),
{
    if notes.len() == 0 {
        0
    } else {
        unspent_total(notes.drop_last()) + if notes.last().spent { 0int } else { notes.last().note.amount as int }
    }
}

/// The unspent notes among `notes`, in their order.
pub open spec fn unspent_notes_of(notes: Seq<WalletNote>) -> Seq<WalletNote>
    decreases notes.len(),
{
    if notes.len() == 0 {
        Seq::empty()
    } else if notes.last().spent {
        unspent_notes_of(notes.drop_last())
    } else {
        unspent_notes_of(notes.drop_last()).push(notes.last())
    }
}

/// The notes after marking the one at `leaf_index` as spent.
pub open spec fn mark_spent_in(notes: Seq<WalletNote>, leaf_index: usize) -> Seq<WalletNote> {
    notes.map_values(|n: WalletNote| if n.leaf_index == leaf_index { WalletNote { spent: true, ..n } } else { n })
}

/// A private wallet. Its notes are kept in a `Vec` in the order of their
/// leaf indices, which rise strictly, so that no index occurs twice, as with
/// a map keyed by leaf index. A `HashMap` is not used because vstd describes
/// it as a `Map` only: the balance (a sum over the notes) and the order in
/// which `unspent_notes` lists them could not be stated over it, since the
/// map's iteration order is unspecified.
#[derive(Debug)]
pub struct Wallet {
    secret_key: Fe,
    notes: Vec<WalletNote>,
    tree: MerkleTree,
}

impl Wallet {
    /// The secret from which note secrets come.
    pub closed spec fn secret_key_spec(&self) -> Fe {
        self.secret_key
    }

    /// The wallet's notes, in the order of their leaf indices.
    pub closed spec fn notes_spec(&self) -> Seq<WalletNote> {
        self.notes@
    }

    /// The local commitment tree.
    pub closed spec fn tree_spec(&self) -> MerkleTree {
        self.tree
    }

    /// The wallet's invariant: a canonical key, a well-formed tree of the
    /// default height, canonical notes, and leaf indices that rise strictly
    /// (so none occurs twice) and lie inside the tree.
    pub closed spec fn wf(&self) -> bool {
        &&& self.secret_key.wf()
        &&& self.tree.wf()
        &&& self.tree.height_spec() == DEFAULT_TREE_HEIGHT
        &&& forall|i: int| 0 <= i < self.notes@.len() ==> (#[trigger] self.notes@[i]).note.wf()
        &&& forall|i: int, j: int| 0 <= i < j < self.notes@.len()
            ==> #[trigger] self.notes@[i].leaf_index < #[trigger] self.notes@[j].leaf_index
        &&& forall|i: int| 0 <= i < self.notes@.len()
            ==> (#[trigger] self.notes@[i]).leaf_index < self.tree.leaves_spec().len()
    }

    /// A wallet with a fresh random secret key, no notes and an empty tree.
    pub fn new() -> (w: Wallet)
        ensures
            w.wf(),
            w.notes_spec() == Seq::<WalletNote>::empty(),
            w.tree_spec().leaves_spec() == Seq::<Fe>::empty(),
    {
        Wallet { secret_key: random_field_element(), notes: Vec::new(), tree: MerkleTree::default_height() }
    }

    /// A wallet restored from its secret key, with no notes and an empty tree.
    pub fn from_secret_key(secret_key: Fe) -> (w: Wallet)
        requires
            secret_key.wf(),
        ensures
            w.wf(),
            w.secret_key_spec() == secret_key,
            w.notes_spec() == Seq::<WalletNote>::empty(),
            w.tree_spec().leaves_spec() == Seq::<Fe>::empty(),
    {
        Wallet { secret_key, notes: Vec::new(), tree: MerkleTree::default_height() }
    }

    /// The total amount of the unspent notes (which must fit in a `u64`).
    pub fn balance(&self) -> (b: u64)
        requires
            self.wf(),
            unspent_total(self.notes_spec()) <= u64::MAX,
        ensures
            b == unspent_total(self.notes_spec()),
    {
        let mut total: u64 = 0;
        let mut i: usize = 0;
        while i < self.notes.len()
            invariant
                i <= self.notes@.len(),
                unspent_total(self.notes@) <= u64::MAX,
                total == unspent_total(self.notes@.take(i as int)),
            decreases self.notes@.len() - i,
        {
            proof {
                assert(self.notes@.take(i + 1).drop_last() =~= self.notes@.take(i as int));
                lemma_unspent_total_prefix(self.notes@, i + 1);
                lemma_unspent_total_prefix_le(self.notes@, i + 1);
            }
            if !self.notes[i].spent {
                total = total + self.notes[i].note.amount;
            }
            i = i + 1;
        }
        proof {
            assert(self.notes@.take(i as int) =~= self.notes@);
        }
        total
    }

    /// A new note of `amount` for a deposit, owned by this wallet's secret
    /// with a fresh random blinding factor, and its commitment.
    pub fn create_deposit_note(&mut self, amount: u64) -> (res: (Note, Fe))
        requires
            old(self).wf(),
        ensures
            *final(self) == *old(self),
            res.0.amount == amount,
            res.0.secret == old(self).secret_key_spec(),
            res.0.wf(),
            res.1 == note_commitment(res.0.amount, res.0.secret, res.0.blinding),
            res.1.wf(),
    {
        let blinding = random_field_element();
        let note = Note::new(amount, self.secret_key, blinding);
        let commitment = note.commitment();
        (note, commitment)
    }

    /// Records a confirmed deposit: its commitment becomes the next leaf of
    /// the tree and the note is kept, unspent, under that leaf index.
    pub fn confirm_deposit(&mut self, note: Note, commitment: Fe)
        requires
            old(self).wf(),
            note.wf(),
            commitment.wf(),
            old(self).tree_spec().leaves_spec().len() < two_pow(DEFAULT_TREE_HEIGHT as nat),
        ensures
            final(self).wf(),
            final(self).secret_key_spec() == old(self).secret_key_spec(),
            final(self).tree_spec().leaves_spec() == old(self).tree_spec().leaves_spec().push(commitment),
            final(self).notes_spec() == old(self).notes_spec().push(WalletNote {
                note,
                leaf_index: old(self).tree_spec().leaves_spec().len() as usize,
                spent: false,
            }),
    {
        let leaf_index = self.tree.insert(commitment);
        self.notes.push(WalletNote { note, leaf_index, spent: false });
    }

    /// The root of the local tree.
    pub fn merkle_root(&self) -> (r: Fe)
        requires
            self.wf(),
        ensures
            r == self.tree_spec().root_spec(),
    {
        proof {
            lemma_default_capacity();
        }
        self.tree.root()
    }

    /// Appends someone else's commitment to the local tree.
    pub fn sync_external_commitment(&mut self, commitment: Fe)
        requires
            old(self).wf(),
            commitment.wf(),
            old(self).tree_spec().leaves_spec().len() < two_pow(DEFAULT_TREE_HEIGHT as nat),
        ensures
            final(self).wf(),
            final(self).secret_key_spec() == old(self).secret_key_spec(),
            final(self).notes_spec() == old(self).notes_spec(),
            final(self).tree_spec().leaves_spec() == old(self).tree_spec().leaves_spec().push(commitment),
    {
        self.tree.insert(commitment);
    }

    /// The unspent notes, in the order of their leaf indices.
    pub fn unspent_notes(&self) -> (r: Vec<&WalletNote>)
        requires
            self.wf(),
        ensures
            r@.len() == unspent_notes_of(self.notes_spec()).len(),
            forall|k: int| 0 <= k < r@.len() ==> *(#[trigger] r@[k]) == unspent_notes_of(self.notes_spec())[k],
            r@.len() == self.notes_spec().filter(|n: WalletNote| !n.spent).len(),
            forall|k: int| 0 <= k < r@.len()
                ==> *(#[trigger] r@[k]) == self.notes_spec().filter(|n: WalletNote| !n.spent)[k],
    {
        proof {
            lemma_unspent_notes_listed(self.notes@);
        }
        let mut r: Vec<&WalletNote> = Vec::new();
        let mut i: usize = 0;
        while i < self.notes.len()
            invariant
                i <= self.notes@.len(),
                r@.len() == unspent_notes_of(self.notes@.take(i as int)).len(),
                forall|k: int| 0 <= k < r@.len() ==> *(#[trigger] r@[k]) == unspent_notes_of(self.notes@.take(i as int))[k],
            decreases self.notes@.len() - i,
        {
            proof {
                assert(self.notes@.take(i + 1).drop_last() =~= self.notes@.take(i as int));
            }
            if !self.notes[i].spent {
                r.push(&self.notes[i]);
            }
            i = i + 1;
        }
        proof {
            assert(self.notes@.take(i as int) =~= self.notes@);
        }
        r
    }

    /// Marks the note at `leaf_index`, if the wallet holds one, as spent.
    pub fn mark_spent(&mut self, leaf_index: usize)
        requires
            old(self).wf(),
        ensures
            final(self).wf(),
            final(self).secret_key_spec() == old(self).secret_key_spec(),
            final(self).tree_spec() == old(self).tree_spec(),
            final(self).notes_spec() == mark_spent_in(old(self).notes_spec(), leaf_index),
    {
        let mut i: usize = 0;
        while i < self.notes.len()
            invariant
                i <= self.notes@.len(),
                self.notes@.len() == old(self).notes@.len(),
                self.secret_key == old(self).secret_key,
                self.tree == old(self).tree,
                forall|k: int| 0 <= k < i ==> #[trigger] self.notes@[k] == mark_spent_in(old(self).notes@, leaf_index)[k],
                forall|k: int| i <= k < self.notes@.len() ==> #[trigger] self.notes@[k] == old(self).notes@[k],
            decreases self.notes@.len() - i,
        {
            if self.notes[i].leaf_index == leaf_index {
                let mut n = self.notes[i];
                n.spent = true;
                self.notes.set(i, n);
            }
            i = i + 1;
        }
        proof {
            assert(self.notes@ =~= mark_spent_in(old(self).notes@, leaf_index));
        }
    }

    /// The Merkle path of a leaf of the local tree.
    pub fn get_merkle_path(&self, leaf_index: usize) -> (path: MerklePath)
        requires
            self.wf(),
            leaf_index + two_pow(DEFAULT_TREE_HEIGHT as nat) <= usize::MAX,
        ensures
            path.siblings@ == self.tree_spec().path_siblings(leaf_index as nat),
            path.path_indices@ == self.tree_spec().path_indices(leaf_index as nat),
            path.wf(),
    {
        self.tree.get_path(leaf_index)
    }

    /// The same as `new`.
    pub fn default() -> (w: Wallet)
        ensures
            w.wf(),
            w.notes_spec() == Seq::<WalletNote>::empty(),
            w.tree_spec().leaves_spec() == Seq::<Fe>::empty(),
    {
        Self::new()
    }
}

/// 2^20 = 1048576, which fits in any `usize`.
proof fn lemma_default_capacity()
    ensures
        two_pow(DEFAULT_TREE_HEIGHT as nat) == 1048576,
        two_pow(DEFAULT_TREE_HEIGHT as nat) <= usize::MAX,
{
    reveal_with_fuel(two_pow, 21);
}

proof fn lemma_unspent_total_prefix(notes: Seq<WalletNote>, n: int)
    requires
        0 < n <= notes.len(),
    ensures
        unspent_total(notes.take(n)) == unspent_total(notes.take(n - 1))
            + if notes[n - 1].spent { 0int } else { notes[n - 1].note.amount as int },
{
    assert(notes.take(n).drop_last() =~= notes.take(n - 1));
}

/// The unspent total of a prefix is at most that of the whole.
proof fn lemma_unspent_total_prefix_le(notes: Seq<WalletNote>, m: int)
    requires
        0 <= m <= notes.len(),
    ensures
        unspent_total(notes.take(m)) <= unspent_total(notes),
    decreases notes.len(),
{
    if m == notes.len() {
        assert(notes.take(m) =~= notes);
    } else {
        let rest = notes.drop_last();
        assert(rest.take(m) =~= notes.take(m));
        lemma_unspent_total_prefix_le(rest, m);
    }
}

/// Confirming a deposit raises the balance by the note's amount.
pub proof fn lemma_deposit_raises_balance(notes: Seq<WalletNote>, note: Note, leaf_index: usize)
    ensures
        unspent_total(notes.push(WalletNote { note, leaf_index, spent: false }))
            == unspent_total(notes) + note.amount,
{
    assert(notes.push(WalletNote { note, leaf_index, spent: false }).drop_last() =~= notes);
}

/// Marking the note at a leaf index the wallet does not hold changes nothing.
pub proof fn lemma_mark_spent_absent(notes: Seq<WalletNote>, leaf_index: usize)
    requires
        forall|k: int| 0 <= k < notes.len() ==> (#[trigger] notes[k]).leaf_index != leaf_index,
    ensures
        mark_spent_in(notes, leaf_index) == notes,
{
    assert(mark_spent_in(notes, leaf_index) =~= notes);
}

/// Marking as spent the note held at `leaf_index` lowers the balance by its
/// amount if it was unspent and leaves the balance alone if it was already
/// spent (leaf indices of a wallet rise strictly, so no other note changes).
pub proof fn lemma_mark_spent_balance(notes: Seq<WalletNote>, leaf_index: usize, k: int)
    requires
        forall|i: int, j: int| 0 <= i < j < notes.len() ==> #[trigger] notes[i].leaf_index < #[trigger] notes[j].leaf_index,
        0 <= k < notes.len(),
        notes[k].leaf_index == leaf_index,
    ensures
        unspent_total(mark_spent_in(notes, leaf_index))
            == unspent_total(notes) - if notes[k].spent { 0int } else { notes[k].note.amount as int },
    decreases notes.len(),
{
    let n = notes.len() as int;
    let rest = notes.drop_last();
    assert(mark_spent_in(notes, leaf_index).drop_last() =~= mark_spent_in(rest, leaf_index));
    if k == n - 1 {
        assert forall|i: int| 0 <= i < rest.len() implies (#[trigger] rest[i]).leaf_index != leaf_index by {
            assert(notes[i].leaf_index < notes[n - 1].leaf_index);
        }
        lemma_mark_spent_absent(rest, leaf_index);
    } else {
        assert(notes[k].leaf_index < notes[n - 1].leaf_index);
        lemma_mark_spent_balance(rest, leaf_index, k);
    }
}

/// Whether the notes' leaf indices rise strictly (so none occurs twice).
pub open spec fn leaf_indices_rise(notes: Seq<WalletNote>) -> bool {
    forall|i: int, j: int| 0 <= i < j < notes.len() ==> #[trigger] notes[i].leaf_index < #[trigger] notes[j].leaf_index
}

/// What every wallet keeps: a well-formed local tree of the default height
/// 20, canonical notes at strictly rising leaf indices inside the tree.
pub proof fn lemma_wallet_invariant(w: &Wallet)
    requires
        w.wf(),
    ensures
        w.tree_spec().wf(),
        w.tree_spec().height_spec() == DEFAULT_TREE_HEIGHT,
        w.secret_key_spec().wf(),
        leaf_indices_rise(w.notes_spec()),
        forall|i: int| 0 <= i < w.notes_spec().len() ==> (#[trigger] w.notes_spec()[i]).note.wf()
            && w.notes_spec()[i].leaf_index < w.tree_spec().leaves_spec().len(),
{
}

/// The path of every leaf position of a wallet's tree (the commitment of a
/// confirmed deposit among them) leads from its leaf to the wallet's root.
pub proof fn lemma_wallet_paths(w: &Wallet, i: nat)
    requires
        w.wf(),
        i < two_pow(DEFAULT_TREE_HEIGHT as nat),
    ensures
        path_root(w.tree_spec().path_siblings(i), w.tree_spec().path_indices(i), leaf_at(w.tree_spec().leaves_spec(), i))
            == w.tree_spec().root_spec(),
{
    lemma_path_leads_to_root(w.tree_spec(), i);
}

/// The wallet's root is the root of any well-formed tree of the default
/// height holding the same leaves; so after `new` (or `from_secret_key`) and
/// then `confirm_deposit` / `sync_external_commitment` with commitments
/// c_0, ..., c_(n-1) in call order (whose contracts append exactly those
/// leaves, while `create_deposit_note` and `mark_spent` keep the tree), it is
/// the root of `MerkleTree::new(20)` after inserting c_0, ..., c_(n-1).
pub proof fn lemma_wallet_root(w: &Wallet, t: MerkleTree)
    requires
        w.wf(),
        t.wf(),
        t.height_spec() == DEFAULT_TREE_HEIGHT,
        t.leaves_spec() == w.tree_spec().leaves_spec(),
    ensures
        w.tree_spec().root_spec() == t.root_spec(),
{
}

/// The sum of the amounts of a list of notes, spent or not.
pub open spec fn amount_sum(notes: Seq<WalletNote>) -> int
    decreases notes.len(),
{
    if notes.len() == 0 {
        0
    } else {
        amount_sum(notes.drop_last()) + notes.last().note.amount
    }
}

/// The unspent notes listed are exactly the notes not spent, every one of
/// them, in the wallet's order, and their amounts sum to the balance.
pub proof fn lemma_unspent_notes_listed(notes: Seq<WalletNote>)
    ensures
        unspent_notes_of(notes) == notes.filter(|n: WalletNote| !n.spent),
        amount_sum(notes.filter(|n: WalletNote| !n.spent)) == unspent_total(notes),
        amount_sum(unspent_notes_of(notes)) == unspent_total(notes),
    decreases notes.len(),
{
    reveal(Seq::filter);
    if notes.len() > 0 {
        let rest = notes.drop_last();
        lemma_unspent_notes_listed(rest);
        let f = rest.filter(|n: WalletNote| !n.spent);
        assert(notes.filter(|n: WalletNote| !n.spent) == if !notes.last().spent { f.push(notes.last()) } else { f });
        if !notes.last().spent {
            assert(f.push(notes.last()).drop_last() =~= f);
        }
    } else {
        assert(notes.filter(|n: WalletNote| !n.spent) =~= Seq::<WalletNote>::empty());
    }
}

} // verus!
