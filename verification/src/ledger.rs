//! The ledger state and its transitions: validation, commitment, and
//! reward distribution over explicit state.
//!
//! A [`Ledger`] owns the unspent-output set and the reward pool. The
//! caller owns its lifetime and threading discipline: a transaction's
//! validation and commitment must run as one non-interleaved unit.

use vstd::prelude::*;

use crate::codec::{encodable, encode_transaction};
use crate::crypto::{output_id, reward_id, transaction_output_id, reward_utxo_id};
use crate::types::{H256, Transaction, TransactionV, Utxo, UtxoV, Value};
use crate::utxo_set::UtxoSet;
use crate::validate::{
    accepted, Admission, input_sum, lemma_accepted_facts, output_sum, RejectionReason, result_view,
    validate, validate_spec, has_duplicate_refs,
};

verus! {

/// Whether one of the first `i` inputs references `x`.
pub open spec fn ref_among(tx: TransactionV, i: int, x: Seq<u8>) -> bool
    decreases i,
{
    if i <= 0 {
        false
    } else {
        tx.input[i - 1].utxo_ref == x || ref_among(tx, i - 1, x)
    }
}

/// Whether one of the first `j` outputs' derived identifiers is `x`.
pub open spec fn id_among(tx: TransactionV, j: int, x: Seq<u8>) -> bool
    decreases j,
{
    if j <= 0 {
        false
    } else {
        output_id(tx, (j - 1) as u64) == x || id_among(tx, j - 1, x)
    }
}

/// The set after the first `i` inputs' references are consumed.
pub open spec fn remove_refs_upto(
    m: Map<Seq<u8>, UtxoV>,
    tx: TransactionV,
    i: int,
) -> Map<Seq<u8>, UtxoV>
    decreases i,
{
    if i <= 0 {
        m
    } else {
        remove_refs_upto(m, tx, i - 1).remove(tx.input[i - 1].utxo_ref)
    }
}

/// The set after the first `j` outputs are created under their derived
/// identifiers.
pub open spec fn insert_outs_upto(
    m: Map<Seq<u8>, UtxoV>,
    tx: TransactionV,
    j: int,
) -> Map<Seq<u8>, UtxoV>
    decreases j,
{
    if j <= 0 {
        m
    } else {
        insert_outs_upto(m, tx, j - 1).insert(output_id(tx, (j - 1) as u64), tx.output[j - 1])
    }
}

/// The set a committed transaction leaves behind: every input's reference
/// consumed, every output created under its derived identifier.
pub open spec fn apply_map(tx: TransactionV, m: Map<Seq<u8>, UtxoV>) -> Map<Seq<u8>, UtxoV> {
    insert_outs_upto(remove_refs_upto(m, tx, tx.input.len() as int), tx, tx.output.len() as int)
}

/// Whether the transaction's derived output identifiers are pairwise
/// distinct. The derivation makes a clash computationally infeasible, but
/// commitment checks it rather than assume it.
pub open spec fn ids_distinct(tx: TransactionV) -> bool {
    forall|j: int, k: int|
        #![trigger output_id(tx, j as u64), output_id(tx, k as u64)]
        0 <= j < k < tx.output.len() ==> output_id(tx, j as u64) != output_id(tx, k as u64)
}

proof fn lemma_ref_among_iff(tx: TransactionV, i: int, x: Seq<u8>)
    ensures
        ref_among(tx, i, x) <==> exists|a: int| 0 <= a < i && tx.input[a].utxo_ref == x,
    decreases i,
{
    if i > 0 {
        lemma_ref_among_iff(tx, i - 1, x);
        if tx.input[i - 1].utxo_ref == x {
            assert(0 <= i - 1 < i && tx.input[i - 1].utxo_ref == x);
        } else if ref_among(tx, i - 1, x) {
            let a = choose|a: int| 0 <= a < i - 1 && tx.input[a].utxo_ref == x;
            assert(0 <= a < i && tx.input[a].utxo_ref == x);
        } else {
            if exists|a: int| 0 <= a < i && tx.input[a].utxo_ref == x {
                let a = choose|a: int| 0 <= a < i && tx.input[a].utxo_ref == x;
                assert(a < i - 1 || a == i - 1);
            }
        }
    }
}

proof fn lemma_id_among_iff(tx: TransactionV, j: int, x: Seq<u8>)
    ensures
        id_among(tx, j, x) <==> exists|a: int| 0 <= a < j && #[trigger] output_id(tx, a as u64) == x,
    decreases j,
{
    if j > 0 {
        lemma_id_among_iff(tx, j - 1, x);
        if output_id(tx, (j - 1) as u64) == x {
            assert(0 <= j - 1 < j && output_id(tx, (j - 1) as u64) == x);
        } else if id_among(tx, j - 1, x) {
            let a = choose|a: int| 0 <= a < j - 1 && #[trigger] output_id(tx, a as u64) == x;
            assert(0 <= a < j && output_id(tx, a as u64) == x);
        } else {
            if exists|a: int| 0 <= a < j && #[trigger] output_id(tx, a as u64) == x {
                let a = choose|a: int| 0 <= a < j && #[trigger] output_id(tx, a as u64) == x;
                assert(a < j - 1 || a == j - 1);
            }
        }
    }
}

proof fn lemma_remove_refs_dom(m: Map<Seq<u8>, UtxoV>, tx: TransactionV, i: int)
    requires
        0 <= i,
    ensures
        forall|x: Seq<u8>|
            #[trigger] remove_refs_upto(m, tx, i).dom().contains(x) <==> (m.dom().contains(x)
                && !ref_among(tx, i, x)),
        forall|x: Seq<u8>|
            remove_refs_upto(m, tx, i).dom().contains(x) ==> remove_refs_upto(m, tx, i)[x]
                == m[x],
    decreases i,
{
    if i > 0 {
        lemma_remove_refs_dom(m, tx, i - 1);
        let prev = remove_refs_upto(m, tx, i - 1);
        let r = tx.input[i - 1].utxo_ref;
        assert(remove_refs_upto(m, tx, i) == prev.remove(r));
        assert forall|x: Seq<u8>| #[trigger] remove_refs_upto(m, tx, i).dom().contains(x) <==> (
        m.dom().contains(x) && !ref_among(tx, i, x)) by {
            assert(prev.dom().contains(x) <==> (m.dom().contains(x) && !ref_among(tx, i - 1, x)));
            assert(prev.remove(r).dom().contains(x) <==> (prev.dom().contains(x) && x != r));
        }
        assert forall|x: Seq<u8>|
            remove_refs_upto(m, tx, i).dom().contains(x) implies #[trigger] remove_refs_upto(
            m,
            tx,
            i,
        )[x] == m[x] by {
            assert(prev.dom().contains(x) <==> (m.dom().contains(x) && !ref_among(tx, i - 1, x)));
            assert(prev.remove(r).dom().contains(x) ==> x != r && prev.remove(r)[x] == prev[x]);
        }
    }
}

proof fn lemma_insert_outs_dom(m0: Map<Seq<u8>, UtxoV>, tx: TransactionV, j: int)
    requires
        0 <= j,
    ensures
        forall|x: Seq<u8>|
            #[trigger] insert_outs_upto(m0, tx, j).dom().contains(x) <==> (m0.dom().contains(x)
                || id_among(tx, j, x)),
        forall|x: Seq<u8>|
            insert_outs_upto(m0, tx, j).dom().contains(x) && !id_among(tx, j, x)
                ==> insert_outs_upto(m0, tx, j)[x] == m0[x],
    decreases j,
{
    if j > 0 {
        lemma_insert_outs_dom(m0, tx, j - 1);
        let prev = insert_outs_upto(m0, tx, j - 1);
        let id = output_id(tx, (j - 1) as u64);
        assert(insert_outs_upto(m0, tx, j) == prev.insert(id, tx.output[j - 1]));
        assert forall|x: Seq<u8>| #[trigger] insert_outs_upto(m0, tx, j).dom().contains(x) <==> (
        m0.dom().contains(x) || id_among(tx, j, x)) by {
            assert(prev.dom().contains(x) <==> (m0.dom().contains(x) || id_among(tx, j - 1, x)));
            assert(prev.insert(id, tx.output[j - 1]).dom().contains(x) <==> (prev.dom().contains(x)
                || x == id));
        }
        assert forall|x: Seq<u8>|
            insert_outs_upto(m0, tx, j).dom().contains(x) && !id_among(tx, j, x) implies #[trigger] insert_outs_upto(
            m0,
            tx,
            j,
        )[x] == m0[x] by {
            assert(prev.dom().contains(x) <==> (m0.dom().contains(x) || id_among(tx, j - 1, x)));
            assert(x != id);
            assert(prev.insert(id, tx.output[j - 1])[x] == prev[x]);
            assert(!id_among(tx, j - 1, x));
        }
    }
}

/// With pairwise-distinct identifiers, each created output is found under
/// its own identifier afterwards.
proof fn lemma_insert_outs_value(m0: Map<Seq<u8>, UtxoV>, tx: TransactionV, j: int, k: int)
    requires
        0 <= k < j <= tx.output.len(),
        ids_distinct(tx),
    ensures
        insert_outs_upto(m0, tx, j).dom().contains(output_id(tx, k as u64)),
        insert_outs_upto(m0, tx, j)[output_id(tx, k as u64)] == tx.output[k],
    decreases j,
{
    if k == j - 1 {
    } else {
        lemma_insert_outs_value(m0, tx, j - 1, k);
        assert(output_id(tx, (j - 1) as u64) != output_id(tx, k as u64));
    }
}

/// What the committed set holds, entry by entry: each output of the
/// admitted transaction under its own identifier; none of the consumed
/// references; and every untouched entry unchanged.
pub proof fn lemma_apply_map_characterized(
    tx: TransactionV,
    m: Map<Seq<u8>, UtxoV>,
    reward: Value,
)
    requires
        accepted(tx, m, reward),
        ids_distinct(tx),
    ensures
        forall|k: int|
            0 <= k < tx.output.len() ==> apply_map(tx, m).dom().contains(
                #[trigger] output_id(tx, k as u64),
            ) && apply_map(tx, m)[output_id(tx, k as u64)] == tx.output[k],
        forall|k: int|
            0 <= k < tx.input.len() ==> !apply_map(tx, m).dom().contains(
                #[trigger] tx.input[k].utxo_ref,
            ),
        forall|x: Seq<u8>|
            m.dom().contains(x) && !ref_among(tx, tx.input.len() as int, x)
                ==> #[trigger] apply_map(tx, m).dom().contains(x) && apply_map(tx, m)[x] == m[x],
        forall|x: Seq<u8>|
            #[trigger] apply_map(tx, m).dom().contains(x) ==> (m.dom().contains(x) || id_among(
                tx,
                tx.output.len() as int,
                x,
            )),
{
    let in_len = tx.input.len() as int;
    let out_len = tx.output.len() as int;
    let m1 = remove_refs_upto(m, tx, in_len);
    lemma_accepted_facts(tx, m, reward);
    lemma_remove_refs_dom(m, tx, in_len);
    lemma_insert_outs_dom(m1, tx, out_len);
    // each created output sits under its own identifier
    assert forall|k: int|
        0 <= k < out_len implies apply_map(tx, m).dom().contains(
        #[trigger] output_id(tx, k as u64),
    ) && apply_map(tx, m)[output_id(tx, k as u64)] == tx.output[k] by {
        lemma_insert_outs_value(m1, tx, out_len, k);
    }
    // no consumed reference survives: it is taken out, and it cannot be
    // re-created, since every derived identifier was absent from the set
    // while the reference was present
    assert forall|k: int|
        0 <= k < in_len implies !apply_map(tx, m).dom().contains(
        #[trigger] tx.input[k].utxo_ref,
    ) by {
        let x = tx.input[k].utxo_ref;
        lemma_ref_among_iff(tx, in_len, x);
        assert(ref_among(tx, in_len, x));
        assert(!m1.dom().contains(x));
        lemma_id_among_iff(tx, out_len, x);
        if id_among(tx, out_len, x) {
            let a = choose|a: int| 0 <= a < out_len && #[trigger] output_id(tx, a as u64) == x;
            assert(!m.dom().contains(output_id(tx, a as u64)));
            assert(m.dom().contains(x));
        }
    }
    // untouched entries keep their value
    assert forall|x: Seq<u8>|
        m.dom().contains(x) && !ref_among(tx, in_len, x) implies #[trigger] apply_map(
        tx,
        m,
    ).dom().contains(x) && apply_map(tx, m)[x] == m[x] by {
        assert(m1.dom().contains(x));
        assert(m1[x] == m[x]);
        lemma_id_among_iff(tx, out_len, x);
        if id_among(tx, out_len, x) {
            let a = choose|a: int| 0 <= a < out_len && #[trigger] output_id(tx, a as u64) == x;
            assert(!m.dom().contains(output_id(tx, a as u64)));
        }
        assert(apply_map(tx, m)[x] == m1[x]);
    }
}

/// The output minted for one recipient of a distribution round.
pub open spec fn reward_utxo(share: Value, owner: Seq<u8>) -> UtxoV {
    UtxoV { value: share, pubScript: owner }
}

/// The identifier a recipient's reward output is stored under in round
/// `epoch`.
pub open spec fn rid(share: Value, owner: Seq<u8>, epoch: u64) -> Seq<u8> {
    reward_id(reward_utxo(share, owner), epoch)
}

/// The set after reward outputs of value `share` are minted for the first
/// `j` recipients in round `epoch`.
pub open spec fn insert_rewards_upto(
    m: Map<Seq<u8>, UtxoV>,
    recipients: Seq<Seq<u8>>,
    share: Value,
    epoch: u64,
    j: int,
) -> Map<Seq<u8>, UtxoV>
    decreases j,
{
    if j <= 0 {
        m
    } else {
        insert_rewards_upto(m, recipients, share, epoch, j - 1).insert(
            rid(share, recipients[j - 1], epoch),
            reward_utxo(share, recipients[j - 1]),
        )
    }
}

/// Whether a round's reward outputs can be minted: every derived
/// identifier absent from the set and no two of them equal (two equal
/// shares for the same owner in the same round would collide).
pub open spec fn rewards_mintable(
    m: Map<Seq<u8>, UtxoV>,
    recipients: Seq<Seq<u8>>,
    share: Value,
    epoch: u64,
) -> bool {
    &&& forall|k: int|
        0 <= k < recipients.len() ==> !m.dom().contains(
            #[trigger] rid(share, recipients[k], epoch),
        )
    &&& forall|j: int, k: int|
        #![trigger rid(share, recipients[j], epoch), rid(share, recipients[k], epoch)]
        0 <= j < k < recipients.len() ==> rid(share, recipients[j], epoch) != rid(
            share,
            recipients[k],
            epoch,
        )
}

/// The ledger: the unspent-output set and the accrued reward pool.
pub struct Ledger {
    utxo_set: UtxoSet,
    reward_total: Value,
}

impl Ledger {
    /// The map from output identifier to unspent output.
    pub closed spec fn utxos(&self) -> Map<Seq<u8>, UtxoV> {
        self.utxo_set@
    }

    /// The accrued reward pool.
    pub closed spec fn reward(&self) -> Value {
        self.reward_total
    }

    /// The sum of the values of all unspent outputs.
    pub closed spec fn total_value(&self) -> int {
        self.utxo_set.total_value()
    }

    /// Well-formedness of the underlying set.
    pub closed spec fn wf(&self) -> bool {
        self.utxo_set.wf()
    }

    /// An empty ledger.
    pub fn new() -> (r: Ledger)
        ensures
            r.wf(),
            r.utxos() == Map::<Seq<u8>, UtxoV>::empty(),
            r.reward() == 0,
            r.total_value() == 0,
    {
        Ledger { utxo_set: UtxoSet::new(), reward_total: 0 }
    }

    /// A ledger seeded from a fixed initial collection of outputs, each
    /// keyed by the digest of its own content; the pool starts empty.
    pub fn from_genesis(outputs: &Vec<Utxo>) -> (r: Ledger)
        ensures
            r.wf(),
            r.utxos() == UtxoSet::genesis_map(outputs@.map_values(|u: Utxo| u@)),
            r.reward() == 0,
            r.total_value() == UtxoSet::genesis_total(outputs@.map_values(|u: Utxo| u@)),
    {
        Ledger { utxo_set: UtxoSet::from_genesis(outputs), reward_total: 0 }
    }

    /// The current reward pool.
    pub fn reward_total(&self) -> (r: Value)
        ensures
            r == self.reward(),
    {
        self.reward_total
    }

    /// The underlying unspent-output set, for inspection.
    pub fn utxo_set(&self) -> (r: &UtxoSet)
        ensures
            r@ == self.utxos(),
            r.wf() <==> self.wf(),
            r.total_value() == self.total_value(),
    {
        &self.utxo_set
    }

    /// Commit an admitted transaction's effects, all or nothing: accrue
    /// the reward, consume every input's referenced output, create every
    /// output under its derived identifier. Callable only after an
    /// outright admission of `transaction` with `reward` against this very
    /// state, with no intervening mutation. The commitment refuses, and
    /// leaves the state untouched, if accruing the reward would overflow
    /// the pool or if two derived identifiers collide.
    #[verifier::loop_isolation(false)]
    pub fn update_storage(&mut self, transaction: &Transaction, reward: Value) -> (r: Result<
        (),
        RejectionReason,
    >)
        requires
            old(self).wf(),
            encodable(transaction@),
            accepted(transaction@, old(self).utxos(), reward),
        ensures
            final(self).wf(),
            match r {
                Ok(_) => {
                    &&& old(self).reward() + reward <= u128::MAX
                    &&& ids_distinct(transaction@)
                    &&& final(self).utxos() == apply_map(transaction@, old(self).utxos())
                    &&& final(self).reward() == old(self).reward() + reward
                    &&& final(self).total_value() + final(self).reward() == old(
                        self,
                    ).total_value() + old(self).reward()
                },
                Err(e) => {
                    &&& *final(self) == *old(self)
                    &&& (e == RejectionReason::RewardOverflow || e
                        == RejectionReason::DuplicateOutputId)
                    &&& (e == RejectionReason::RewardOverflow <==> old(self).reward() + reward
                        > u128::MAX)
                    &&& (e == RejectionReason::DuplicateOutputId ==> !ids_distinct(transaction@))
                },
            },
    {
        let ghost m = self.utxos();
        let ghost txv = transaction@;
        proof {
            lemma_accepted_facts(txv, m, reward);
        }
        // accruing the reward must fit the pool, checked before anything moves
        let new_total = match self.reward_total.checked_add(reward) {
            Some(t) => t,
            None => {
                return Err(RejectionReason::RewardOverflow);
            },
        };
        // derive every output identifier before touching anything
        let enc = encode_transaction(transaction);
        let out_len = transaction.output.len();
        let mut ids: Vec<H256> = Vec::new();
        let mut j: usize = 0;
        while j < out_len
            invariant
                j <= out_len,
                ids@.len() == j,
                forall|k: int| 0 <= k < j ==> #[trigger] ids@[k]@ == output_id(txv, k as u64),
            decreases out_len - j,
        {
            let id = transaction_output_id(&enc, j as u64);
            ids.push(id);
            j = j + 1;
        }
        // refuse colliding identifiers rather than overwrite silently
        let mut a: usize = 0;
        while a < out_len
            invariant
                a <= out_len,
                forall|x: int, y: int|
                    #![trigger output_id(txv, x as u64), output_id(txv, y as u64)]
                    0 <= x < y < a ==> output_id(txv, x as u64) != output_id(txv, y as u64),
            decreases out_len - a,
        {
            let mut b: usize = 0;
            while b < a
                invariant
                    b <= a < out_len,
                    forall|x: int|
                        0 <= x < b ==> #[trigger] output_id(txv, x as u64) != output_id(
                            txv,
                            a as u64,
                        ),
                decreases a - b,
            {
                if ids[b].eq_bytes(&ids[a]) {
                    proof {
                        assert(output_id(txv, b as u64) == output_id(txv, a as u64));
                        assert(!ids_distinct(txv));
                    }
                    return Err(RejectionReason::DuplicateOutputId);
                }
                proof {
                    assert(output_id(txv, b as u64) != output_id(txv, a as u64));
                }
                b = b + 1;
            }
            a = a + 1;
        }
        proof {
            assert(ids_distinct(txv));
        }
        // consume the inputs
        let in_len = transaction.input.len();
        let mut i: usize = 0;
        while i < in_len
            invariant
                i <= in_len,
                self.utxo_set.wf(),
                self.reward_total == old(self).reward(),
                self.utxo_set@ == remove_refs_upto(m, txv, i as int),
                self.utxo_set.total_value() == old(self).total_value() - (input_sum(txv, m, 0)
                    - input_sum(txv, m, i as int)),
            decreases in_len - i,
        {
            let ghost r = txv.input[i as int].utxo_ref;
            proof {
                lemma_remove_refs_dom(m, txv, i as int);
                lemma_ref_among_iff(txv, i as int, r);
                assert(m.dom().contains(r));
                if ref_among(txv, i as int, r) {
                    let x = choose|x: int| 0 <= x < i && txv.input[x].utxo_ref == r;
                    assert(has_duplicate_refs(txv.input));
                }
                assert(self.utxo_set@.dom().contains(r));
                assert(self.utxo_set@[r] == m[r]);
                assert(txv.input[i as int] == transaction.input@[i as int]@);
            }
            self.utxo_set.remove(&transaction.input[i].utxo_ref);
            i = i + 1;
        }
        let ghost m1 = self.utxo_set@;
        let ghost t1 = self.utxo_set.total_value();
        proof {
            lemma_remove_refs_dom(m, txv, in_len as int);
        }
        // create the outputs under their derived identifiers
        let mut c: usize = 0;
        while c < out_len
            invariant
                c <= out_len,
                self.utxo_set.wf(),
                self.reward_total == old(self).reward(),
                self.utxo_set@ == insert_outs_upto(m1, txv, c as int),
                self.utxo_set.total_value() == t1 + (output_sum(txv, 0) - output_sum(
                    txv,
                    c as int,
                )),
            decreases out_len - c,
        {
            let ghost id = output_id(txv, c as u64);
            proof {
                lemma_insert_outs_dom(m1, txv, c as int);
                lemma_id_among_iff(txv, c as int, id);
                if id_among(txv, c as int, id) {
                    let x = choose|x: int| 0 <= x < c && #[trigger] output_id(txv, x as u64) == id;
                    assert(false);
                }
                assert(!m1.dom().contains(id));
                assert(!self.utxo_set@.dom().contains(id));
                assert(ids@[c as int]@ == id);
                assert(txv.output[c as int] == transaction.output@[c as int]@);
            }
            self.utxo_set.insert(ids[c], transaction.output[c]);
            c = c + 1;
        }
        self.reward_total = new_total;
        proof {
            assert(self.utxo_set@ == apply_map(txv, m));
        }
        Ok(())
    }

    /// Validate a candidate transaction and, on an outright admission,
    /// commit it: the one-call spend path. A rejection is returned as is;
    /// a pending decision (missing inputs) is refused; in both cases
    /// nothing is mutated. The state is touched only on an outright
    /// admission, as [`Self::update_storage`] fixes it.
    pub fn spend(&mut self, transaction: &Transaction) -> (r: Result<(), RejectionReason>)
        requires
            old(self).wf(),
            encodable(transaction@),
        ensures
            final(self).wf(),
            match validate_spec(transaction@, old(self).utxos()) {
                Err(e) => r == Err::<(), RejectionReason>(e) && *final(self) == *old(self),
                Ok(av) => {
                    if av.missing_inputs.len() > 0 {
                        &&& r == Err::<(), RejectionReason>(RejectionReason::MissingInputs)
                        &&& *final(self) == *old(self)
                    } else {
                        match r {
                            Ok(_) => {
                                &&& old(self).reward() + av.reward <= u128::MAX
                                &&& ids_distinct(transaction@)
                                &&& final(self).utxos() == apply_map(
                                    transaction@,
                                    old(self).utxos(),
                                )
                                &&& final(self).reward() == old(self).reward() + av.reward
                                &&& final(self).total_value() + final(self).reward() == old(
                                    self,
                                ).total_value() + old(self).reward()
                            },
                            Err(e) => {
                                &&& *final(self) == *old(self)
                                &&& (e == RejectionReason::RewardOverflow || e
                                    == RejectionReason::DuplicateOutputId)
                                &&& (e == RejectionReason::RewardOverflow <==> old(self).reward()
                                    + av.reward > u128::MAX)
                                &&& (e == RejectionReason::DuplicateOutputId ==> !ids_distinct(
                                    transaction@,
                                ))
                            },
                        }
                    }
                },
            },
    {
        let admission = match validate(transaction, &self.utxo_set) {
            Ok(a) => a,
            Err(e) => {
                return Err(e);
            },
        };
        if !admission.missing_inputs.is_empty() {
            proof {
                assert(admission@.missing_inputs.len() > 0);
            }
            return Err(RejectionReason::MissingInputs);
        }
        proof {
            assert(admission@.missing_inputs.len() == 0);
            assert(accepted(transaction@, self.utxos(), admission.reward));
        }
        self.update_storage(transaction, admission.reward)
    }

    /// Split the accrued pool among the recipients of this round: each
    /// gets one output of `pool / recipients` (integer floor), keyed by
    /// the digest of that output and the round counter; the remainder
    /// stays in the pool for the next round. A zero share skips the round
    /// entirely (no dust outputs). An empty recipient list with a
    /// non-empty pool is a caller defect and is refused; so is a round
    /// whose derived identifiers collide. Nothing is partially applied.
    #[verifier::loop_isolation(false)]
    pub fn dispense_reward(&mut self, recipients: &Vec<H256>, epoch: u64) -> (r: Result<
        Vec<H256>,
        RejectionReason,
    >)
        requires
            old(self).wf(),
        ensures
            final(self).wf(),
            ({
                let rv = recipients@.map_values(|h: H256| h@);
                let rt = old(self).reward();
                let n = rv.len();
                if n == 0 {
                    &&& *final(self) == *old(self)
                    &&& if rt > 0 {
                        r == Err::<Vec<H256>, RejectionReason>(RejectionReason::NoRecipients)
                    } else {
                        r matches Ok(v) && v@.len() == 0
                    }
                } else {
                    let share = rt / (n as u128);
                    if share == 0 {
                        &&& *final(self) == *old(self)
                        &&& r matches Ok(v) && v@.len() == 0
                    } else if rewards_mintable(old(self).utxos(), rv, share, epoch) {
                        &&& r matches Ok(v) && v@.map_values(|h: H256| h@) == Seq::new(
                            n,
                            |k: int| rid(share, rv[k], epoch),
                        )
                        &&& final(self).utxos() == insert_rewards_upto(
                            old(self).utxos(),
                            rv,
                            share,
                            epoch,
                            n as int,
                        )
                        &&& final(self).reward() == rt - share * (n as u128)
                        &&& final(self).total_value() + final(self).reward() == old(
                            self,
                        ).total_value() + old(self).reward()
                    } else {
                        &&& *final(self) == *old(self)
                        &&& r == Err::<Vec<H256>, RejectionReason>(
                            RejectionReason::DuplicateOutputId,
                        )
                    }
                }
            }),
    {
        let ghost m = self.utxos();
        let ghost rv = recipients@.map_values(|h: H256| h@);
        let n = recipients.len();
        if n == 0 {
            if self.reward_total > 0 {
                return Err(RejectionReason::NoRecipients);
            } else {
                return Ok(Vec::new());
            }
        }
        let share = self.reward_total / (n as u128);
        if share == 0 {
            return Ok(Vec::new());
        }
        // derive this round's identifiers
        let mut ids: Vec<H256> = Vec::new();
        let mut k: usize = 0;
        while k < n
            invariant
                k <= n,
                ids@.len() == k,
                forall|x: int| 0 <= x < k ==> #[trigger] ids@[x]@ == rid(share, rv[x], epoch),
            decreases n - k,
        {
            let u = Utxo { value: share, pubScript: recipients[k] };
            let id = reward_utxo_id(&u, epoch);
            proof {
                assert(u@ == reward_utxo(share, rv[k as int]));
            }
            ids.push(id);
            k = k + 1;
        }
        // refuse a colliding round rather than overwrite or mint partially
        let mut a: usize = 0;
        while a < n
            invariant
                a <= n,
                forall|x: int|
                    0 <= x < a ==> !m.dom().contains(#[trigger] rid(share, rv[x], epoch)),
                forall|x: int, y: int|
                    #![trigger rid(share, rv[x], epoch), rid(share, rv[y], epoch)]
                    0 <= x < y < a ==> rid(share, rv[x], epoch) != rid(share, rv[y], epoch),
            decreases n - a,
        {
            if self.utxo_set.contains(&ids[a]) {
                return Err(RejectionReason::DuplicateOutputId);
            }
            let mut b: usize = 0;
            while b < a
                invariant
                    b <= a,
                    forall|x: int|
                        0 <= x < b ==> #[trigger] rid(share, rv[x], epoch) != rid(
                            share,
                            rv[a as int],
                            epoch,
                        ),
                decreases a - b,
            {
                if ids[b].eq_bytes(&ids[a]) {
                    return Err(RejectionReason::DuplicateOutputId);
                }
                b = b + 1;
            }
            a = a + 1;
        }
        proof {
            assert(rewards_mintable(m, rv, share, epoch));
            vstd::arithmetic::div_mod::lemma_fundamental_div_mod(
                self.reward_total as int,
                n as int,
            );
            vstd::arithmetic::div_mod::lemma_mod_bound(self.reward_total as int, n as int);
            assert((n as int) * (share as int) <= self.reward_total as int);
        }
        // the pool keeps the remainder; the rest is minted below
        let minted = share * (n as u128);
        self.reward_total = self.reward_total - minted;
        let ghost t0 = self.utxo_set.total_value();
        let mut c: usize = 0;
        while c < n
            invariant
                c <= n,
                self.utxo_set.wf(),
                self.reward_total == old(self).reward() - minted,
                self.utxo_set@ == insert_rewards_upto(m, rv, share, epoch, c as int),
                self.utxo_set.total_value() == t0 + (share as int) * (c as int),
                forall|x: int|
                    c <= x < n ==> !self.utxo_set@.dom().contains(
                        #[trigger] rid(share, rv[x], epoch),
                    ),
            decreases n - c,
        {
            let u = Utxo { value: share, pubScript: recipients[c] };
            proof {
                assert(u@ == reward_utxo(share, rv[c as int]));
                assert(ids@[c as int]@ == rid(share, rv[c as int], epoch));
            }
            self.utxo_set.insert(ids[c], u);
            proof {
                assert forall|x: int|
                    c + 1 <= x < n implies !self.utxo_set@.dom().contains(
                    #[trigger] rid(share, rv[x], epoch),
                ) by {
                    assert(rid(share, rv[x], epoch) != rid(share, rv[c as int], epoch));
                }
                assert((share as int) * (c as int) + share == (share as int) * (c + 1)) by (
                nonlinear_arith);
            }
            c = c + 1;
        }
        proof {
            assert((share as int) * (n as int) == (n as int) * (share as int)) by (
            nonlinear_arith);
            assert(ids@.map_values(|h: H256| h@) =~= Seq::new(
                rv.len(),
                |k: int| rid(share, rv[k], epoch),
            ));
        }
        Ok(ids)
    }

    /// Check a candidate transaction against the current set, read-only:
    /// exactly the decision of [`validate_spec`].
    pub fn validate_transaction(&self, tx: &Transaction) -> (r: Result<Admission, RejectionReason>)
        requires
            self.wf(),
            encodable(tx@),
        ensures
            result_view(r) == validate_spec(tx@, self.utxos()),
    {
        validate(tx, &self.utxo_set)
    }
}

} // verus!
