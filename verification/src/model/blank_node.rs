use vstd::prelude::*;

verus! {

/// The lowercase hexadecimal digit that stands for `d`, as an ASCII byte.
pub open spec fn hex_digit(d: nat) -> u8
    recommends
        d < 16,
{
    if d < 10 {
        (48 + d) as u8
    } else {
        (87 + d) as u8
    }
}

/// The lowercase hexadecimal digits of `n`, most significant first, with no
/// leading zero; zero is the single digit `0`.
pub open spec fn hex_digits(n: nat) -> Seq<u8>
    decreases n,
{
    if n < 16 {
        seq![hex_digit(n)]
    } else {
        hex_digits(n / 16).push(hex_digit(n % 16))
    }
}

/// The buffer of a blank node with identifier `id`: its hexadecimal digits,
/// then NUL bytes up to 32 bytes in all.
pub open spec fn blank_node_bytes(id: u128) -> Seq<u8> {
    hex_digits(id as nat) + Seq::new((32 - hex_digits(id as nat).len()) as nat, |i: int| 0u8)
}

/// The text of a blank node with identifier `id`: one character for each byte
/// of its buffer.
pub open spec fn blank_node_text(id: u128) -> Seq<char> {
    Seq::new(32, |i: int| blank_node_bytes(id)[i] as char)
}

/// The power `16^k`.
pub open spec fn pow16(k: nat) -> nat
    decreases k,
{
    if k == 0 {
        1
    } else {
        16 * pow16((k - 1) as nat)
    }
}

proof fn lemma_hex_digits_len(n: nat, k: nat)
    requires
        k >= 1,
        n < pow16(k),
    ensures
        1 <= hex_digits(n).len() <= k,
    decreases n,
{
    if n >= 16 {
        assert(pow16(1) == 16) by {
            reveal_with_fuel(pow16, 2);
        }
        assert(k >= 2);
        assert(pow16(k) == 16 * pow16((k - 1) as nat));
        lemma_hex_digits_len(n / 16, (k - 1) as nat);
    }
}

/// A 128-bit identifier has between 1 and 32 hexadecimal digits, each of them
/// an ASCII byte.
pub proof fn lemma_hex_digits_u128(id: u128)
    ensures
        1 <= hex_digits(id as nat).len() <= 32,
        blank_node_bytes(id).len() == 32,
        forall|i: int| 0 <= i < 32 ==> #[trigger] blank_node_bytes(id)[i] < 128,
{
    assert(pow16(32) == 0x1_0000_0000_0000_0000_0000_0000_0000_0000nat) by {
        reveal_with_fuel(pow16, 33);
    }
    lemma_hex_digits_len(id as nat, 32);
    lemma_hex_digits_ascii(id as nat);
}

proof fn lemma_hex_digits_ascii(n: nat)
    ensures
        forall|i: int| 0 <= i < hex_digits(n).len() ==> #[trigger] hex_digits(n)[i] < 128,
    decreases n,
{
    if n >= 16 {
        lemma_hex_digits_ascii(n / 16);
        let head = hex_digits(n / 16);
        assert forall|i: int| 0 <= i < hex_digits(n).len() implies #[trigger] hex_digits(n)[i]
            < 128 by {
            if i < head.len() {
                assert(hex_digits(n)[i] == head[i]);
            }
        }
    }
}

/// Reads `bytes` as text through `std::str::from_utf8`. Every byte is ASCII,
/// so the bytes are valid UTF-8 and each of them is one character of the
/// result.
#[verifier::external_body]
fn ascii_text(bytes: &[u8; 32]) -> (text: &str)
    requires
        forall|i: int| 0 <= i < 32 ==> #[trigger] bytes@[i] < 128,
    ensures
        text@ == Seq::new(32, |i: int| bytes@[i] as char),
{
    std::str::from_utf8(bytes).unwrap()
}

/// Draws an identifier through `rand::random`. Nothing is known of the value.
#[verifier::external_body]
fn random_id() -> (id: u128)
{
    rand::random::<u128>()
}

/// Formats a blank node label through the `Display` impl of
/// `rio_api::model::BlankNode`, which writes `_:` and then the label
/// unchanged.
#[verifier::external_body]
fn rio_blank_node_text(label: &str) -> (text: String)
    ensures
        text@ == seq!['_', ':'] + label@,
{
    rio_api::model::BlankNode { id: label }.to_string()
}

/// An RDF blank node.
///
/// The identifier is a 128-bit number; the label is its lowercase hexadecimal
/// form, kept in a fixed buffer of 32 bytes. Two blank nodes are the same node
/// exactly when their identifiers are equal.
#[derive(Eq, PartialEq, Ord, PartialOrd, Debug, Hash)]
pub struct BlankNode {
    id: u128,
    str: [u8; 32],
}

impl View for BlankNode {
    type V = u128;

    closed spec fn view(&self) -> u128 {
        self.id
    }
}

impl Clone for BlankNode {
    fn clone(&self) -> (node: Self)
        ensures
            node == *self,
    {
        proof {
            use_type_invariant(self);
        }
        BlankNode { id: self.id, str: self.str }
    }
}

impl BlankNode {
    #[verifier::type_invariant]
    spec fn buffer_holds_label(&self) -> bool {
        self.str@ == blank_node_bytes(self.id)
    }

    /// Creates the blank node with the given identifier.
    pub fn new_from_unique_id(id: u128) -> (node: Self)
        ensures
            node@ == id,
    {
        let mut digits: [u8; 32] = [0u8; 32];
        let mut rest: u128 = id;
        let mut count: usize = 0;
        proof {
            lemma_hex_digits_u128(id);
        }
        loop
            invariant_except_break
                count < 32,
                count + hex_digits(rest as nat).len() == hex_digits(id as nat).len(),
                hex_digits(id as nat) == hex_digits(rest as nat) + digits@.subrange(
                    32 - count,
                    32,
                ),
            invariant
                hex_digits(id as nat).len() <= 32,
            ensures
                1 <= count <= 32,
                hex_digits(id as nat) == digits@.subrange(32 - count, 32),
            decreases rest,
        {
            let d: u8 = (rest % 16) as u8;
            let c: u8 = if d < 10 {
                48 + d
            } else {
                87 + d
            };
            assert(c == hex_digit((rest % 16) as nat));
            let ghost before = digits@;
            digits[31 - count] = c;
            assert(digits@.subrange(31 - count, 32) == seq![c] + before.subrange(32 - count, 32));
            count = count + 1;
            if rest < 16 {
                break ;
            }
            assert(hex_digits(rest as nat) == hex_digits((rest / 16) as nat).push(c));
            rest = rest / 16;
        }
        let mut str: [u8; 32] = [0u8; 32];
        let mut i: usize = 0;
        while i < count
            invariant
                1 <= count <= 32,
                i <= count,
                hex_digits(id as nat) == digits@.subrange(32 - count, 32),
                forall|j: int| 0 <= j < i ==> str@[j] == hex_digits(id as nat)[j],
                forall|j: int| i <= j < 32 ==> str@[j] == 0u8,
            decreases count - i,
        {
            let c: u8 = digits[32 - count + i];
            assert(c == digits@.subrange(32 - count, 32)[i as int]);
            str[i] = c;
            i = i + 1;
        }
        assert(str@ =~= blank_node_bytes(id));
        BlankNode { id, str }
    }

    /// The label of this blank node: the hexadecimal digits of its
    /// identifier, followed by NUL characters up to 32 characters in all.
    pub fn as_str(&self) -> (text: &str)
        ensures
            text@ == blank_node_text(self@),
    {
        proof {
            use_type_invariant(self);
            lemma_hex_digits_u128(self.id);
        }
        ascii_text(&self.str)
    }

    /// The identifier of this blank node.
    pub fn id(&self) -> (id: u128)
        ensures
            id == self@,
    {
        self.id
    }

    /// The N-Triples, Turtle and SPARQL form of this blank node: `_:` and then
    /// its label.
    pub fn to_string(&self) -> (text: String)
        ensures
            text@ == seq!['_', ':'] + blank_node_text(self@),
    {
        rio_blank_node_text(self.as_str())
    }
}

impl Default for BlankNode {
    /// Builds a blank node with a freshly drawn identifier.
    fn default() -> (node: Self)
    {
        BlankNode::new_from_unique_id(random_id())
    }
}

} // verus!
