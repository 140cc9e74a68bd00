//! The wallet's logic: its keys and UTXOs, the balance, and how a payment picks the UTXOs
//! it spends.
use vstd::prelude::*;
use vstd::string::StrSliceExecFns;

use crate::crypto::{der_key_precedes, key_precedes, ecdsa_signature, PrivateKey, PublicKey, Signature};
use crate::transaction::{output_hash, InputV, OutputV, Tx, TxInput, TxOutput, Uuid};

verus! {

/// Key pair with paths to public and private keys
pub struct Key {
    pub public: String,
    pub private: String,
}

/// Pair of name and path to the public key used in contact list
pub struct Recipient {
    /// Recipient's name
    pub name: String,
    /// Path to the file with public key
    pub key_path: String,
}

/// Type of the miner fee
#[derive(Clone, Copy, Debug, PartialEq, Eq, Structural)]
pub enum FeeType {
    /// Flat value
    Fixed,
    /// Percentage of the sent amount
    Percent,
}

/// Why the wallet cannot do what it was asked.
#[derive(Clone, Copy, Debug, PartialEq, Eq, Structural)]
pub enum WalletError {
    /// No private key is loaded for a public key
    KeyNotFound,
    /// The unspent outputs do not cover the amount and the fee
    InsufficientFunds,
    /// No contact has the name
    RecipientNotFound,
    /// The configuration lists no key pair
    NoKeys,
}

/// Loaded key pair with actual public and private keys
pub struct LoadedKey {
    pub public: PublicKey,
    pub private: PrivateKey,
}

/// The UTXOs of each of the wallet's public keys, in the order of the keys.
pub type UtxoGroup = (PublicKey, Vec<(bool, TxOutput)>);

/// The wallet's key pairs and, for each of its public keys, its UTXOs with the flag that
/// tells whether a transaction in the node's mempool already spends them.
pub struct UtxoStore {
    /// My pub and priv key pair
    pub my_keys: Vec<LoadedKey>,
    /// My utxos
    pub utxos: Vec<UtxoGroup>,
}

/// What the store stands for: the key pairs as (public key DER, secret bytes), and the
/// UTXO groups as (public key DER, flagged outputs).
pub struct StoreV {
    pub keys: Seq<(Seq<u8>, Seq<u8>)>,
    pub groups: Seq<(Seq<u8>, Seq<(bool, OutputV)>)>,
}

/// The views of the UTXOs of one group.
pub open spec fn flagged_view(s: Seq<(bool, TxOutput)>) -> Seq<(bool, OutputV)> {
    s.map_values(|u: (bool, TxOutput)| (u.0, u.1@))
}

impl View for UtxoStore {
    type V = StoreV;

    open spec fn view(&self) -> StoreV {
        StoreV {
            keys: self.my_keys@.map_values(|k: LoadedKey| (k.public.der@, k.private.spec_bytes())),
            groups: self.utxos@.map_values(|g: UtxoGroup| (g.0.der@, flagged_view(g.1@))),
        }
    }
}

/// Position of the first contact with the name.
pub fn find_recipient(contacts: &Vec<Recipient>, name: &str) -> (r: Result<usize, WalletError>)
    ensures
        match r {
            Ok(i) => i < contacts@.len() && contacts@[i as int].name@ == name@ && forall|j: int|
                0 <= j < i ==> (#[trigger] contacts@[j]).name@ != name@,
            Err(e) => e == WalletError::RecipientNotFound && forall|j: int|
                0 <= j < contacts@.len() ==> (#[trigger] contacts@[j]).name@ != name@,
        },
{
    let wanted = name.to_string();
    let mut i: usize = 0;
    while i < contacts.len()
        invariant
            i <= contacts@.len(),
            wanted@ == name@,
            forall|j: int| 0 <= j < i ==> (#[trigger] contacts@[j]).name@ != name@,
        decreases contacts@.len() - i,
    {
        if contacts[i].name == wanted {
            return Ok(i);
        }
        i = i + 1;
    }
    Err(WalletError::RecipientNotFound)
}

/// A configuration must list at least one key pair.
pub fn check_has_keys(my_keys: &Vec<Key>) -> (r: Result<(), WalletError>)
    ensures
        r is Ok <==> my_keys@.len() > 0,
        r is Err ==> r == Err::<(), WalletError>(WalletError::NoKeys),
{
    if my_keys.len() == 0 {
        return Err(WalletError::NoKeys);
    }
    Ok(())
}

// ---------------------------------------------------------------------------------------
// The command line

/// Unicode White_Space, what `char::is_whitespace` tests.
pub open spec fn white_space(c: char) -> bool {
    let x = c as u32;
    ||| 0x9 <= x <= 0xD
    ||| x == 0x20
    ||| x == 0x85
    ||| x == 0xA0
    ||| x == 0x1680
    ||| 0x2000 <= x <= 0x200A
    ||| x == 0x2028
    ||| x == 0x2029
    ||| x == 0x202F
    ||| x == 0x205F
    ||| x == 0x3000
}

/// Whether the character is white space.
pub fn is_white_space(c: char) -> (r: bool)
    ensures
        r == white_space(c),
{
    let x = c as u32;
    (0x9 <= x && x <= 0xD) || x == 0x20 || x == 0x85 || x == 0xA0 || x == 0x1680 || (0x2000 <= x && x
        <= 0x200A) || x == 0x2028 || x == 0x2029 || x == 0x202F || x == 0x205F || x == 0x3000
}

/// One more character of a line: white space ends the current word, anything else extends
/// it.
pub open spec fn split_step(st: (Seq<Seq<char>>, Seq<char>), c: char) -> (Seq<Seq<char>>, Seq<char>) {
    if white_space(c) {
        if st.1.len() > 0 {
            (st.0.push(st.1), Seq::empty())
        } else {
            st
        }
    } else {
        (st.0, st.1.push(c))
    }
}

/// The finished words and the current word after the characters.
pub open spec fn split_scan(s: Seq<char>) -> (Seq<Seq<char>>, Seq<char>)
    decreases s.len(),
{
    if s.len() == 0 {
        (Seq::empty(), Seq::empty())
    } else {
        split_step(split_scan(s.drop_last()), s.last())
    }
}

/// The words of a line: its maximal runs of characters that are not white space.
pub open spec fn words_of(s: Seq<char>) -> Seq<Seq<char>> {
    let st = split_scan(s);
    if st.1.len() > 0 {
        st.0.push(st.1)
    } else {
        st.0
    }
}

/// What `str::parse::<u64>` gives: an optional `+`, then one or more ASCII digits whose
/// value fits in 64 bits.
pub open spec fn parsed_u64(s: Seq<char>) -> Option<u64> {
    let d = unsigned_digits(s);
    if d.len() > 0 && (forall|i: int| 0 <= i < d.len() ==> '0' <= #[trigger] d[i] <= '9')
        && digits_value(d) <= u64::MAX {
        Some(digits_value(d) as u64)
    } else {
        None
    }
}

/// The text after an optional leading `+`.
pub open spec fn unsigned_digits(s: Seq<char>) -> Seq<char> {
    if s.len() > 0 && s[0] == '+' {
        s.skip(1)
    } else {
        s
    }
}

/// The value of a sequence of decimal digits.
pub open spec fn digits_value(d: Seq<char>) -> int
    decreases d.len(),
{
    if d.len() == 0 {
        0
    } else {
        digits_value(d.drop_last()) * 10 + (d.last() as int - '0' as int)
    }
}

/// A sequence of digits has at least the value of each of its prefixes.
proof fn lemma_digits_value_prefix(d: Seq<char>, k: int)
    requires
        0 <= k <= d.len(),
        forall|i: int| 0 <= i < d.len() ==> '0' <= #[trigger] d[i] <= '9',
    ensures
        digits_value(d.take(k)) <= digits_value(d),
        0 <= digits_value(d),
    decreases d.len(),
{
    if d.len() > 0 {
        let e = d.drop_last();
        assert forall|i: int| 0 <= i < e.len() implies '0' <= #[trigger] e[i] <= '9' by {
            assert(e[i] == d[i]);
        }
        if k == d.len() {
            assert(d.take(k) =~= d);
            lemma_digits_value_prefix(e, 0);
        } else {
            assert(d.take(k) =~= e.take(k));
            lemma_digits_value_prefix(e, k);
        }
        assert(d[d.len() - 1] == d.last());
    } else {
        assert(d.take(k) =~= d);
    }
}

/// Reads a decimal number of sats the way `str::parse::<u64>` does: an optional `+`, then
/// one or more ASCII digits whose value fits in 64 bits.
fn parse_u64(s: &str) -> (r: Option<u64>)
    ensures
        r == parsed_u64(s@),
{
    let n = s.unicode_len();
    let mut start: usize = 0;
    if n > 0 && s.get_char(0) == '+' {
        start = 1;
    }
    let ghost d = unsigned_digits(s@);
    assert(d =~= s@.skip(start as int));
    if start >= n {
        return None;
    }
    // every character must be a digit
    let mut i: usize = start;
    while i < n
        invariant
            start <= i <= n == s@.len(),
            d =~= s@.skip(start as int),
            d == unsigned_digits(s@),
            forall|j: int| 0 <= j < i - start ==> '0' <= #[trigger] d[j] <= '9',
        decreases n - i,
    {
        let c = s.get_char(i);
        if !('0' <= c && c <= '9') {
            assert(d[i - start] == c);
            assert(parsed_u64(s@) is None);
            return None;
        }
        assert(d[i - start] == c);
        i = i + 1;
    }
    // the value, stopping where it would not fit
    let mut value: u64 = 0;
    let mut k: usize = start;
    while k < n
        invariant
            start <= k <= n == s@.len(),
            d =~= s@.skip(start as int),
            d == unsigned_digits(s@),
            d.len() > 0,
            forall|j: int| 0 <= j < d.len() ==> '0' <= #[trigger] d[j] <= '9',
            value == digits_value(d.take(k - start)),
        decreases n - k,
    {
        let c = s.get_char(k);
        assert(d[k - start] == c);
        assert(d.take(k - start + 1).drop_last() =~= d.take(k - start));
        assert(d.take(k - start + 1).last() == c);
        let digit: u64 = (c as u32 - '0' as u32) as u64;
        let next = match value.checked_mul(10) {
            Some(v) => v.checked_add(digit),
            None => None,
        };
        match next {
            Some(v) => {
                value = v;
            },
            None => {
                proof {
                    lemma_digits_value_prefix(d, k - start + 1);
                    assert(digits_value(d.take(k - start + 1)) == value * 10 + digit);
                    assert(digits_value(d) > u64::MAX);
                    assert(parsed_u64(s@) is None);
                }
                return None;
            },
        }
        k = k + 1;
    }
    assert(d.take(k - start) =~= d);
    Some(value)
}

/// A command of the wallet's command line.
pub enum CliCommand {
    /// An empty line
    Empty,
    /// `balance`
    Balance,
    /// `send <recipient> <amount>`
    Send(String, u64),
    /// `send` without exactly two arguments
    SendUsage,
    /// `send` with an amount that is not a number of sats
    InvalidAmount,
    /// `exit`
    Exit,
    /// Anything else
    Unknown,
}

/// The command that the words of a line give.
pub open spec fn command_matches(w: Seq<Seq<char>>, r: CliCommand) -> bool {
    if w.len() == 0 {
        r is Empty
    } else if w[0] == "balance"@ {
        r is Balance
    } else if w[0] == "send"@ {
        if w.len() != 3 {
            r is SendUsage
        } else {
            match parsed_u64(w[2]) {
                Some(a) => r matches CliCommand::Send(name, amount) && name@ == w[1] && amount == a,
                None => r is InvalidAmount,
            }
        }
    } else if w[0] == "exit"@ {
        r is Exit
    } else {
        r is Unknown
    }
}

/// Reads a command from a line of input.
pub fn parse_command(line: &str) -> (r: CliCommand)
    ensures
        command_matches(words_of(line@), r),
{
    let ghost s = line@;
    let n = line.unicode_len();
    // (start, end) of each finished word, in characters
    let mut bounds: Vec<(usize, usize)> = Vec::new();
    let mut start: usize = 0;
    let mut in_word = false;
    let mut i: usize = 0;
    while i < n
        invariant
            n == s.len(),
            s == line@,
            i <= n,
            start <= i,
            split_scan(s.take(i as int)).0.len() == bounds@.len(),
            forall|j: int|
                0 <= j < bounds@.len() ==> {
                    &&& (#[trigger] bounds@[j]).0 < bounds@[j].1 <= i
                    &&& split_scan(s.take(i as int)).0[j] == s.subrange(
                        bounds@[j].0 as int,
                        bounds@[j].1 as int,
                    )
                },
            split_scan(s.take(i as int)).1 == if in_word {
                s.subrange(start as int, i as int)
            } else {
                Seq::<char>::empty()
            },
            in_word ==> start < i,
        decreases n - i,
    {
        let c = line.get_char(i);
        let ghost before = split_scan(s.take(i as int));
        assert(s.take(i + 1).drop_last() =~= s.take(i as int));
        assert(s.take(i + 1).last() == c);
        if is_white_space(c) {
            if in_word {
                bounds.push((start, i));
                in_word = false;
            }
        } else {
            if !in_word {
                start = i;
                in_word = true;
            }
        }
        i = i + 1;
        assert(split_scan(s.take(i as int)).1 =~= if in_word {
            s.subrange(start as int, i as int)
        } else {
            Seq::<char>::empty()
        });
    }
    assert(s.take(i as int) =~= s);
    if in_word {
        bounds.push((start, n));
    }
    let ghost w = words_of(s);
    assert(w.len() == bounds@.len());
    assert(forall|j: int|
        0 <= j < bounds@.len() ==> #[trigger] w[j] == s.subrange(bounds@[j].0 as int, bounds@[j].1 as int));
    if bounds.len() == 0 {
        return CliCommand::Empty;
    }
    let first = line.substring_char(bounds[0].0, bounds[0].1).to_string();
    if first == "balance".to_string() {
        return CliCommand::Balance;
    }
    if first == "send".to_string() {
        if bounds.len() != 3 {
            return CliCommand::SendUsage;
        }
        let recipient = line.substring_char(bounds[1].0, bounds[1].1).to_string();
        let amount_word = line.substring_char(bounds[2].0, bounds[2].1);
        return match parse_u64(amount_word) {
            Some(amount) => CliCommand::Send(recipient, amount),
            None => CliCommand::InvalidAmount,
        };
    }
    if first == "exit".to_string() {
        return CliCommand::Exit;
    }
    CliCommand::Unknown
}

/// `i` is the first key pair whose public key is `der`.
pub open spec fn first_key_at(keys: Seq<(Seq<u8>, Seq<u8>)>, der: Seq<u8>, i: int) -> bool {
    &&& 0 <= i < keys.len()
    &&& keys[i].0 == der
    &&& forall|j: int| 0 <= j < i ==> (#[trigger] keys[j]).0 != der
}

/// Position of the first key pair whose public key is `der`.
pub open spec fn key_position(keys: Seq<(Seq<u8>, Seq<u8>)>, der: Seq<u8>) -> Option<int> {
    if exists|i: int| first_key_at(keys, der, i) {
        Some(choose|i: int| first_key_at(keys, der, i))
    } else {
        None
    }
}

/// The secret bytes of the first key pair whose public key is `der`.
pub open spec fn secret_for(keys: Seq<(Seq<u8>, Seq<u8>)>, der: Seq<u8>) -> Seq<u8> {
    keys[key_position(keys, der).unwrap()].1
}

// ---------------------------------------------------------------------------------------
// Balance

/// Sum of the amounts of flagged outputs.
pub open spec fn flagged_total(s: Seq<(bool, OutputV)>) -> int
    decreases s.len(),
{
    if s.len() == 0 {
        0
    } else {
        flagged_total(s.drop_last()) + s.last().1.amount
    }
}

/// Sum of the amounts of all outputs of all groups.
pub open spec fn groups_total(g: Seq<(Seq<u8>, Seq<(bool, OutputV)>)>) -> int
    decreases g.len(),
{
    if g.len() == 0 {
        0
    } else {
        groups_total(g.drop_last()) + flagged_total(g.last().1)
    }
}

proof fn lemma_flagged_total_prefix(s: Seq<(bool, OutputV)>, k: int)
    requires
        0 <= k <= s.len(),
    ensures
        0 <= flagged_total(s.take(k)) <= flagged_total(s),
    decreases s.len(),
{
    if k < s.len() {
        assert(s.drop_last().take(k) =~= s.take(k));
        lemma_flagged_total_prefix(s.drop_last(), k);
    } else {
        assert(s.take(k) =~= s);
        if s.len() > 0 {
            lemma_flagged_total_prefix(s.drop_last(), s.len() - 1);
            assert(s.drop_last().take(s.len() - 1) =~= s.drop_last());
        }
    }
}

proof fn lemma_groups_total_prefix(g: Seq<(Seq<u8>, Seq<(bool, OutputV)>)>, k: int)
    requires
        0 <= k <= g.len(),
    ensures
        0 <= groups_total(g.take(k)) <= groups_total(g),
    decreases g.len(),
{
    if k < g.len() {
        assert(g.drop_last().take(k) =~= g.take(k));
        lemma_groups_total_prefix(g.drop_last(), k);
        lemma_flagged_total_prefix(g.last().1, g.last().1.len() as int);
        assert(g.last().1.take(g.last().1.len() as int) =~= g.last().1);
    } else {
        assert(g.take(k) =~= g);
        if g.len() > 0 {
            lemma_groups_total_prefix(g.drop_last(), g.len() - 1);
            assert(g.drop_last().take(g.len() - 1) =~= g.drop_last());
            lemma_flagged_total_prefix(g.last().1, 0);
        }
    }
}

// ---------------------------------------------------------------------------------------
// Picking the UTXOs of a payment

/// Progress of picking UTXOs: the outputs picked so far with the key that owns each, their
/// sum, and whether the sum reached the total. `KeyNotFound` when a group is reached whose
/// key has no private key; `Overflow` when the sum would not fit in 64 bits.
pub enum Selection {
    KeyNotFound,
    Overflow,
    Picking { picked: Seq<(Seq<u8>, OutputV)>, sum: int, reached: bool },
}

/// One more UTXO of a group: skipped when the total is reached or the UTXO is flagged,
/// picked otherwise.
pub open spec fn pick_step(sel: Selection, key: Seq<u8>, u: (bool, OutputV), total: int) -> Selection {
    match sel {
        Selection::Picking { picked, sum, reached } => if reached || u.0 {
            sel
        } else if sum + u.1.amount > u64::MAX {
            Selection::Overflow
        } else {
            Selection::Picking {
                picked: picked.push((key, u.1)),
                sum: sum + u.1.amount,
                reached: sum + u.1.amount >= total,
            }
        },
        _ => sel,
    }
}

/// The UTXOs of a group, in order.
pub open spec fn pick_group(sel: Selection, key: Seq<u8>, us: Seq<(bool, OutputV)>, total: int) -> Selection
    decreases us.len(),
{
    if us.len() == 0 {
        sel
    } else {
        pick_step(pick_group(sel, key, us.drop_last(), total), key, us.last(), total)
    }
}

/// One more group: skipped when the total is reached; refused when its key has no private
/// key; otherwise its UTXOs are picked, and afterwards the total counts as reached when the
/// sum covers it.
pub open spec fn group_step(
    sel: Selection,
    keys: Seq<(Seq<u8>, Seq<u8>)>,
    g: (Seq<u8>, Seq<(bool, OutputV)>),
    total: int,
) -> Selection {
    match sel {
        Selection::Picking { reached, .. } => if reached {
            sel
        } else if key_position(keys, g.0) is None {
            Selection::KeyNotFound
        } else {
            match pick_group(sel, g.0, g.1, total) {
                Selection::Picking { picked, sum, .. } => Selection::Picking {
                    picked,
                    sum,
                    reached: sum >= total,
                },
                other => other,
            }
        },
        _ => sel,
    }
}

/// All groups, in order, starting with nothing picked.
pub open spec fn select(keys: Seq<(Seq<u8>, Seq<u8>)>, g: Seq<(Seq<u8>, Seq<(bool, OutputV)>)>, total: int) -> Selection
    decreases g.len(),
{
    if g.len() == 0 {
        Selection::Picking { picked: Seq::empty(), sum: 0, reached: false }
    } else {
        group_step(select(keys, g.drop_last(), total), keys, g.last(), total)
    }
}

/// The input that spends a picked output: its hash, signed with the private key of the key
/// pair that owns it.
pub open spec fn input_for(keys: Seq<(Seq<u8>, Seq<u8>)>, p: (Seq<u8>, OutputV)) -> InputV {
    InputV {
        prev_tx_output_hash: output_hash(p.1),
        signature: ecdsa_signature(secret_for(keys, p.0), output_hash(p.1).spec_bytes()),
    }
}

/// The inputs that spend the picked outputs.
pub open spec fn inputs_for(keys: Seq<(Seq<u8>, Seq<u8>)>, picked: Seq<(Seq<u8>, OutputV)>) -> Seq<InputV> {
    picked.map_values(|p: (Seq<u8>, OutputV)| input_for(keys, p))
}

proof fn lemma_pick_group_settled(sel: Selection, key: Seq<u8>, us: Seq<(bool, OutputV)>, total: int, k: int)
    requires
        0 <= k <= us.len(),
        !(pick_group(sel, key, us.take(k), total) matches Selection::Picking { reached: false, .. }),
    ensures
        pick_group(sel, key, us, total) == pick_group(sel, key, us.take(k), total),
    decreases us.len(),
{
    if k < us.len() {
        assert(us.drop_last().take(k) =~= us.take(k));
        lemma_pick_group_settled(sel, key, us.drop_last(), total, k);
    } else {
        assert(us.take(k) =~= us);
    }
}

proof fn lemma_select_settled(
    keys: Seq<(Seq<u8>, Seq<u8>)>,
    g: Seq<(Seq<u8>, Seq<(bool, OutputV)>)>,
    total: int,
    k: int,
)
    requires
        0 <= k <= g.len(),
        !(select(keys, g.take(k), total) matches Selection::Picking { reached: false, .. }),
    ensures
        select(keys, g, total) == select(keys, g.take(k), total),
    decreases g.len(),
{
    if k < g.len() {
        assert(g.drop_last().take(k) =~= g.take(k));
        lemma_select_settled(keys, g.drop_last(), total, k);
    } else {
        assert(g.take(k) =~= g);
    }
}

/// The transaction pays `amount` to the recipient, and any change above the amount and
/// the fee back to the first key pair, spending the picked outputs.
pub open spec fn payment_tx(
    tx: crate::transaction::TxV,
    s: StoreV,
    picked: Seq<(Seq<u8>, OutputV)>,
    sum: int,
    recipient: Seq<u8>,
    amount: u64,
    fee: u64,
) -> bool {
    &&& tx.inputs == inputs_for(s.keys, picked)
    &&& tx.outputs.len() == if sum > amount + fee {
        2int
    } else {
        1int
    }
    &&& tx.outputs[0].amount == amount
    &&& tx.outputs[0].pubkey == recipient
    &&& sum > amount + fee ==> {
        &&& tx.outputs[1].amount == sum - (amount + fee)
        &&& tx.outputs[1].pubkey == s.keys[0].0
    }
}

/// Sum of the amounts of picked outputs.
pub open spec fn picked_total(p: Seq<(Seq<u8>, OutputV)>) -> int
    decreases p.len(),
{
    if p.len() == 0 {
        0
    } else {
        picked_total(p.drop_last()) + p.last().1.amount
    }
}

/// The picked output is an unflagged UTXO of a group of the store, owned by the group's key.
pub open spec fn from_store(groups: Seq<(Seq<u8>, Seq<(bool, OutputV)>)>, p: (Seq<u8>, OutputV)) -> bool {
    exists|g: int, u: int|
        0 <= g < groups.len() && 0 <= u < groups[g].1.len() && #[trigger] groups[g].1[u] == (
            false,
            p.1,
        ) && groups[g].0 == p.0
}

/// Every picked output comes from the store unflagged, and the sum is their total.
pub open spec fn picking_sound(groups: Seq<(Seq<u8>, Seq<(bool, OutputV)>)>, sel: Selection) -> bool {
    match sel {
        Selection::Picking { picked, sum, .. } => sum == picked_total(picked) && forall|j: int|
            0 <= j < picked.len() ==> from_store(groups, #[trigger] picked[j]),
        _ => true,
    }
}

proof fn lemma_pick_group_sound(
    groups: Seq<(Seq<u8>, Seq<(bool, OutputV)>)>,
    g: int,
    k: int,
    sel: Selection,
    total: int,
)
    requires
        0 <= g < groups.len(),
        0 <= k <= groups[g].1.len(),
        picking_sound(groups, sel),
    ensures
        picking_sound(groups, pick_group(sel, groups[g].0, groups[g].1.take(k), total)),
    decreases k,
{
    if k > 0 {
        lemma_pick_group_sound(groups, g, k - 1, sel, total);
        let us = groups[g].1.take(k);
        assert(us.drop_last() =~= groups[g].1.take(k - 1));
        assert(us.last() == groups[g].1[k - 1]);
        let prev = pick_group(sel, groups[g].0, groups[g].1.take(k - 1), total);
        if let Selection::Picking { picked, sum, reached } = prev {
            let u = groups[g].1[k - 1];
            if !reached && !u.0 && sum + u.1.amount <= u64::MAX {
                let np = picked.push((groups[g].0, u.1));
                assert(np.drop_last() =~= picked);
                assert(from_store(groups, (groups[g].0, u.1)));
                assert forall|j: int| 0 <= j < np.len() implies from_store(groups, #[trigger] np[j]) by {
                    if j < picked.len() {
                        assert(np[j] == picked[j]);
                    }
                }
            }
        }
    } else {
        assert(groups[g].1.take(0) =~= Seq::<(bool, OutputV)>::empty());
    }
}

/// A payment only spends unflagged UTXOs of the store, each under the key of its group, and
/// the sum that is compared with the amount and the fee is the total of what it spends.
pub proof fn lemma_select_sound(
    keys: Seq<(Seq<u8>, Seq<u8>)>,
    groups: Seq<(Seq<u8>, Seq<(bool, OutputV)>)>,
    total: int,
)
    ensures
        picking_sound(groups, select(keys, groups, total)),
    decreases groups.len(),
{
    if groups.len() > 0 {
        let d = groups.drop_last();
        lemma_select_sound(keys, d, total);
        let prev = select(keys, d, total);
        let g = groups.len() - 1;
        assert(groups[g] == groups.last());
        if let Selection::Picking { picked, sum, reached } = prev {
            assert forall|j: int| 0 <= j < picked.len() implies from_store(groups, #[trigger] picked[j]) by {
                let (a, b) = choose|a: int, b: int|
                    0 <= a < d.len() && 0 <= b < d[a].1.len() && #[trigger] d[a].1[b] == (
                        false,
                        picked[j].1,
                    ) && d[a].0 == picked[j].0;
                assert(groups[a] == d[a]);
            }
            assert(picking_sound(groups, prev));
            lemma_pick_group_sound(groups, g, groups[g].1.len() as int, prev, total);
            assert(groups[g].1.take(groups[g].1.len() as int) =~= groups[g].1);
        }
    }
}

/// A node's reply of UTXOs (output, whether a mempool transaction spends it), as the
/// flagged outputs of a group: the flag first.
pub open spec fn reply_flagged(reply: Seq<(TxOutput, bool)>) -> Seq<(bool, OutputV)> {
    reply.map_values(|p: (TxOutput, bool)| (p.1, p.0@))
}

/// Whether some group of the store is that of the key.
pub open spec fn has_group(groups: Seq<(Seq<u8>, Seq<(bool, OutputV)>)>, der: Seq<u8>) -> bool {
    exists|i: int| 0 <= i < groups.len() && (#[trigger] groups[i]).0 == der
}

/// The groups after the key's UTXOs became the reply: each group of the key is replaced.
pub open spec fn groups_replaced(
    groups: Seq<(Seq<u8>, Seq<(bool, OutputV)>)>,
    der: Seq<u8>,
    flagged: Seq<(bool, OutputV)>,
) -> Seq<(Seq<u8>, Seq<(bool, OutputV)>)> {
    groups.map_values(
        |g: (Seq<u8>, Seq<(bool, OutputV)>)|
            if g.0 == der {
                (der, flagged)
            } else {
                g
            },
    )
}

/// `i` is where a group of the key goes among groups kept in key order: after the groups
/// whose keys come before it.
pub open spec fn key_slot(groups: Seq<(Seq<u8>, Seq<(bool, OutputV)>)>, der: Seq<u8>, i: int) -> bool {
    &&& 0 <= i <= groups.len()
    &&& forall|j: int| 0 <= j < i ==> key_precedes(#[trigger] groups[j].0, der)
    &&& i < groups.len() ==> !key_precedes(groups[i].0, der)
}

/// The flagged outputs of a group built from a node's reply, in reply order.
fn flagged_from_reply(reply: &Vec<(TxOutput, bool)>) -> (r: Vec<(bool, TxOutput)>)
    ensures
        flagged_view(r@) == reply_flagged(reply@),
{
    let mut r: Vec<(bool, TxOutput)> = Vec::new();
    let mut i: usize = 0;
    while i < reply.len()
        invariant
            i <= reply@.len(),
            flagged_view(r@) == reply_flagged(reply@.take(i as int)),
        decreases reply@.len() - i,
    {
        let ghost before = r@;
        let out = reply[i].0.clone();
        r.push((reply[i].1, out));
        proof {
            assert(r@ == before.push((reply@[i as int].1, out)));
            assert(flagged_view(r@) =~= flagged_view(before).push((reply@[i as int].1, reply@[i as int].0@)));
            assert(reply@.take(i + 1) =~= reply@.take(i as int).push(reply@[i as int]));
            assert(reply_flagged(reply@.take(i + 1)) =~= reply_flagged(reply@.take(i as int)).push(
                (reply@[i as int].1, reply@[i as int].0@),
            ));
        }
        i = i + 1;
    }
    assert(reply@.take(i as int) =~= reply@);
    r
}

impl UtxoStore {
    pub fn new() -> (r: UtxoStore)
        ensures
            r@.keys.len() == 0,
            r@.groups.len() == 0,
    {
        UtxoStore { my_keys: Vec::new(), utxos: Vec::new() }
    }

    pub fn add_key(&mut self, key: LoadedKey)
        ensures
            final(self)@.keys == old(self)@.keys.push((key.public.der@, key.private.spec_bytes())),
            final(self)@.groups == old(self)@.groups,
    {
        let ghost before = self@.keys;
        let ghost k = (key.public.der@, key.private.spec_bytes());
        self.my_keys.push(key);
        assert(self@.keys =~= before.push(k));
    }

    /// The node's reply of the key's UTXOs becomes the key's group (each output with its
    /// flag, in reply order); a key with no group gets one, placed in key order: after the
    /// groups whose keys come before it.
    pub fn set_utxos(&mut self, key: &PublicKey, reply: Vec<(TxOutput, bool)>)
        ensures
            final(self)@.keys == old(self)@.keys,
            has_group(old(self)@.groups, key.der@) ==> final(self)@.groups == groups_replaced(
                old(self)@.groups,
                key.der@,
                reply_flagged(reply@),
            ),
            !has_group(old(self)@.groups, key.der@) ==> exists|i: int|
                key_slot(old(self)@.groups, key.der@, i) && final(self)@.groups == old(
                    self,
                )@.groups.insert(i, (key.der@, reply_flagged(reply@))),
    {
        let ghost old_groups = self@.groups;
        let ghost target = groups_replaced(old_groups, key.der@, reply_flagged(reply@));
        let mut found = false;
        let mut j: usize = 0;
        while j < self.utxos.len()
            invariant
                j <= self.utxos@.len() == old_groups.len(),
                self@.keys == old(self)@.keys,
                old_groups == old(self)@.groups,
                target == groups_replaced(old_groups, key.der@, reply_flagged(reply@)),
                forall|k: int| 0 <= k < j ==> #[trigger] self@.groups[k] == target[k],
                forall|k: int| j <= k < old_groups.len() ==> #[trigger] self@.groups[k] == old_groups[k],
                found == exists|k: int| 0 <= k < j && (#[trigger] old_groups[k]).0 == key.der@,
            decreases old_groups.len() - j,
        {
            assert(self@.groups[j as int] == old_groups[j as int]);
            let ghost before = self.utxos@;
            let ghost groups_before = self@.groups;
            if self.utxos[j].0.same(key) {
                let group = flagged_from_reply(&reply);
                let k = key.clone();
                let ghost entry = (k, group);
                self.utxos.set(j, (k, group));
                proof {
                    assert(self.utxos@ == before.update(j as int, entry));
                    assert forall|m: int| 0 <= m < self.utxos@.len() implies #[trigger] self@.groups[m]
                        == (if m == j {
                        (key.der@, reply_flagged(reply@))
                    } else {
                        groups_before[m]
                    }) by {
                        assert(self@.groups[m] == (self.utxos@[m].0.der@, flagged_view(self.utxos@[m].1@)));
                        assert(groups_before[m] == (before[m].0.der@, flagged_view(before[m].1@)));
                    }
                }
                found = true;
            }
            assert(self@.groups[j as int] == target[j as int]);
            j = j + 1;
        }
        if found {
            assert(self@.groups =~= target);
        } else {
            assert(!has_group(old_groups, key.der@));
            assert forall|m: int| 0 <= m < old_groups.len() implies #[trigger] self@.groups[m]
                == old_groups[m] by {
                assert(self@.groups[m] == target[m]);
                assert(old_groups[m].0 != key.der@);
            }
            assert(self@.groups =~= old_groups);
            // the place of the key among the groups, in key order
            let mut i: usize = 0;
            while i < self.utxos.len() && der_key_precedes(self.utxos[i].0.der.as_slice(), key.der.as_slice())
                invariant
                    i <= self.utxos@.len(),
                    self@.groups == old_groups,
                    forall|j: int| 0 <= j < i ==> key_precedes(#[trigger] old_groups[j].0, key.der@),
                decreases self.utxos@.len() - i,
            {
                assert(old_groups[i as int].0 == self.utxos@[i as int].0.der@);
                i = i + 1;
            }
            proof {
                if i < self.utxos@.len() {
                    assert(old_groups[i as int].0 == self.utxos@[i as int].0.der@);
                }
                assert(key_slot(old_groups, key.der@, i as int));
            }
            let group = flagged_from_reply(&reply);
            let k = key.clone();
            let ghost before = self.utxos@;
            let ghost entry = (k, group);
            self.utxos.insert(i, (k, group));
            let ghost want = old_groups.insert(i as int, (key.der@, reply_flagged(reply@)));
            proof {
                assert(self.utxos@ == before.insert(i as int, entry));
                assert forall|m: int| 0 <= m < self.utxos@.len() implies #[trigger] self@.groups[m]
                    == want[m] by {
                    assert(self@.groups[m] == (self.utxos@[m].0.der@, flagged_view(self.utxos@[m].1@)));
                    if m < i {
                        assert(old_groups[m] == (before[m].0.der@, flagged_view(before[m].1@)));
                    } else if m > i {
                        assert(old_groups[m - 1] == (before[m - 1].0.der@, flagged_view(before[m - 1].1@)));
                    }
                }
            }
            assert(self@.groups =~= want);
        }
    }

    /// Returns sender's private key for specified public key
    pub fn my_privkey(&self, pubkey: &PublicKey) -> (r: Result<&PrivateKey, WalletError>)
        ensures
            match key_position(self@.keys, pubkey.der@) {
                Some(i) => r matches Ok(k) && k.spec_bytes() == self@.keys[i].1,
                None => r == Err::<&PrivateKey, WalletError>(WalletError::KeyNotFound),
            },
    {
        let ghost keys = self@.keys;
        let mut i: usize = 0;
        while i < self.my_keys.len()
            invariant
                i <= self.my_keys@.len(),
                keys == self@.keys,
                forall|j: int| 0 <= j < i ==> (#[trigger] keys[j]).0 != pubkey.der@,
            decreases self.my_keys@.len() - i,
        {
            assert(keys[i as int] == (
                self.my_keys@[i as int].public.der@,
                self.my_keys@[i as int].private.spec_bytes(),
            ));
            if self.my_keys[i].public.same(pubkey) {
                proof {
                    assert(first_key_at(keys, pubkey.der@, i as int));
                    let c = choose|c: int| first_key_at(keys, pubkey.der@, c);
                    if c < i {
                        assert(keys[c].0 != pubkey.der@);
                    } else if c > i {
                        assert(keys[i as int].0 != pubkey.der@);
                    }
                }
                return Ok(&self.my_keys[i].private);
            }
            i = i + 1;
        }
        assert(forall|c: int| !first_key_at(keys, pubkey.der@, c));
        Err(WalletError::KeyNotFound)
    }

    /// Creates new transaction paying `amount` to the recipient with `fee` left to the
    /// miner: unflagged UTXOs are picked in order until they cover both.
    pub fn create_transaction(&self, recipient_pubkey: &PublicKey, amount: u64, fee: u64) -> (r: Result<
        Tx,
        WalletError,
    >)
        requires
            amount + fee <= u64::MAX,
            !(select(self@.keys, self@.groups, amount + fee) is Overflow),
        ensures
            match select(self@.keys, self@.groups, amount + fee) {
                Selection::KeyNotFound => r == Err::<Tx, WalletError>(WalletError::KeyNotFound),
                Selection::Overflow => false,
                Selection::Picking { picked, sum, .. } => if sum < amount + fee {
                    r == Err::<Tx, WalletError>(WalletError::InsufficientFunds)
                } else {
                    r matches Ok(tx) && payment_tx(
                        tx@,
                        self@,
                        picked,
                        sum,
                        recipient_pubkey.der@,
                        amount,
                        fee,
                    )
                },
            },
    {
        let ghost keys = self@.keys;
        let ghost groups = self@.groups;
        let total_amount = amount + fee;
        let mut inputs: Vec<TxInput> = Vec::new();
        let mut input_sum: u64 = 0;
        let mut reached = false;
        let ghost mut picked: Seq<(Seq<u8>, OutputV)> = Seq::empty();
        let mut g: usize = 0;
        assert(groups.take(0) =~= Seq::<(Seq<u8>, Seq<(bool, OutputV)>)>::empty());
        // iterate over all my pubkeys
        while g < self.utxos.len() && !reached
            invariant
                g <= self.utxos@.len(),
                keys == self@.keys,
                groups == self@.groups,
                total_amount == amount + fee,
                !(select(keys, groups, total_amount as int) is Overflow),
                select(keys, groups.take(g as int), total_amount as int) == (Selection::Picking {
                    picked,
                    sum: input_sum as int,
                    reached,
                }),
                inputs@.map_values(|i: TxInput| i@) == inputs_for(keys, picked),
                input_sum > 0 ==> keys.len() > 0,
            decreases self.utxos@.len() - g,
        {
            let my_pubkey = &self.utxos[g].0;
            let utxos = &self.utxos[g].1;
            let ghost us = groups[g as int].1;
            let ghost key = groups[g as int].0;
            assert(us == flagged_view(utxos@) && key == my_pubkey.der@);
            assert(groups.take(g + 1).drop_last() =~= groups.take(g as int));
            assert(groups.take(g + 1).last() == groups[g as int]);
            let my_privkey = match self.my_privkey(my_pubkey) {
                Ok(k) => k,
                Err(e) => {
                    proof {
                        lemma_select_settled(keys, groups, total_amount as int, g + 1);
                    }
                    return Err(e);
                },
            };
            let ghost start = Selection::Picking { picked, sum: input_sum as int, reached: false };
            let mut reached_in = false;
            let mut j: usize = 0;
            assert(us.take(0) =~= Seq::<(bool, OutputV)>::empty());
            // iterate over UTXOs for one pubkey
            while j < utxos.len() && !reached_in
                invariant
                    j <= utxos@.len(),
                    keys == self@.keys,
                    groups == self@.groups,
                    g < groups.len(),
                    us == groups[g as int].1,
                    key == groups[g as int].0,
                    us == flagged_view(utxos@),
                    key_position(keys, key) is Some,
                    my_privkey.spec_bytes() == secret_for(keys, key),
                    keys.len() > 0,
                    total_amount == amount + fee,
                    !(select(keys, groups, total_amount as int) is Overflow),
                    select(keys, groups.take(g as int), total_amount as int) == start,
                    start matches Selection::Picking { reached: false, .. },
                    pick_group(start, key, us.take(j as int), total_amount as int) == (Selection::Picking {
                        picked,
                        sum: input_sum as int,
                        reached: reached_in,
                    }),
                    inputs@.map_values(|i: TxInput| i@) == inputs_for(keys, picked),
                decreases utxos@.len() - j,
            {
                assert(us.take(j + 1).drop_last() =~= us.take(j as int));
                assert(us.take(j + 1).last() == us[j as int]);
                let marked = utxos[j].0;
                let utxo = &utxos[j].1;
                assert(us[j as int] == (marked, utxo@));
                if !marked {
                    if input_sum > u64::MAX - utxo.amount {
                        proof {
                            assert(pick_group(start, key, us.take(j + 1), total_amount as int)
                                is Overflow);
                            lemma_pick_group_settled(start, key, us, total_amount as int, j + 1);
                            assert(group_step(start, keys, groups[g as int], total_amount as int)
                                is Overflow);
                            assert(groups.take(g + 1).drop_last() =~= groups.take(g as int));
                            assert(groups.take(g + 1).last() == groups[g as int]);
                            assert(select(keys, groups.take(g + 1), total_amount as int)
                                is Overflow);
                            lemma_select_settled(keys, groups, total_amount as int, g + 1);
                        }
                        assert(false);
                        return Err(WalletError::InsufficientFunds);
                    }
                    let h = utxo.hash();
                    let signature = Signature::sign_output(&h, my_privkey);
                    let ghost before = inputs@.map_values(|i: TxInput| i@);
                    inputs.push(TxInput { prev_tx_output_hash: h, signature });
                    proof {
                        let p = (key, utxo@);
                        assert(input_for(keys, p) == inputs@[inputs@.len() - 1]@);
                        assert(inputs@.map_values(|i: TxInput| i@) =~= before.push(input_for(keys, p)));
                        assert(inputs_for(keys, picked.push(p)) =~= inputs_for(keys, picked).push(
                            input_for(keys, p),
                        ));
                        picked = picked.push(p);
                    }
                    input_sum = input_sum + utxo.amount;
                    if input_sum >= total_amount {
                        reached_in = true;
                    }
                }
                j = j + 1;
            }
            proof {
                if j < utxos.len() {
                    lemma_pick_group_settled(start, key, us, total_amount as int, j as int);
                } else {
                    assert(us.take(j as int) =~= us);
                }
            }
            reached = input_sum >= total_amount;
            g = g + 1;
        }
        proof {
            if g < self.utxos.len() {
                lemma_select_settled(keys, groups, total_amount as int, g as int);
            } else {
                assert(groups.take(g as int) =~= groups);
            }
        }
        if input_sum < total_amount {
            return Err(WalletError::InsufficientFunds);
        }
        let mut outputs: Vec<TxOutput> = Vec::new();
        outputs.push(
            TxOutput { amount, unique_id: Uuid::new_v4(), pubkey: recipient_pubkey.clone() },
        );
        if input_sum > total_amount {
            // change
            outputs.push(
                TxOutput {
                    amount: input_sum - total_amount,
                    unique_id: Uuid::new_v4(),
                    pubkey: self.my_keys[0].public.clone(),
                },
            );
        }
        Ok(Tx::new(inputs, outputs))
    }

    /// Sum of the amounts of all UTXOs, flagged or not.
    pub fn get_balance(&self) -> (r: u64)
        requires
            groups_total(self@.groups) <= u64::MAX,
        ensures
            r == groups_total(self@.groups),
    {
        let ghost g = self@.groups;
        let mut total: u64 = 0;
        let mut i: usize = 0;
        while i < self.utxos.len()
            invariant
                i <= self.utxos@.len(),
                g == self@.groups,
                groups_total(g) <= u64::MAX,
                total == groups_total(g.take(i as int)),
            decreases self.utxos@.len() - i,
        {
            let utxos = &self.utxos[i].1;
            let ghost us = g[i as int].1;
            assert(us == flagged_view(utxos@));
            assert(g.take(i + 1).drop_last() =~= g.take(i as int));
            proof {
                lemma_groups_total_prefix(g, i + 1);
            }
            let mut j: usize = 0;
            while j < utxos.len()
                invariant
                    j <= utxos@.len(),
                    us == flagged_view(utxos@),
                    groups_total(g.take(i as int)) + flagged_total(us) <= u64::MAX,
                    total == groups_total(g.take(i as int)) + flagged_total(us.take(j as int)),
                decreases utxos@.len() - j,
            {
                assert(us.take(j + 1).drop_last() =~= us.take(j as int));
                proof {
                    lemma_flagged_total_prefix(us, j + 1);
                }
                total = total + utxos[j].1.amount;
                j = j + 1;
            }
            assert(us.take(j as int) =~= us);
            i = i + 1;
        }
        assert(g.take(i as int) =~= g);
        total
    }
}

} // verus!
