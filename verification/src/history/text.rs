//! Histories as text.
use super::blob_deque::BlobDeque;
use super::component_history::ComponentHistory;
use super::sparse_blob_deque::SparseBlobDeque;
use crate::bits;

use vstd::prelude::*;

verus! {

/// The digit for a number below sixteen.
pub open spec fn digit(n: int) -> char {
    if n == 0 {
        '0'
    } else if n == 1 {
        '1'
    } else if n == 2 {
        '2'
    } else if n == 3 {
        '3'
    } else if n == 4 {
        '4'
    } else if n == 5 {
        '5'
    } else if n == 6 {
        '6'
    } else if n == 7 {
        '7'
    } else if n == 8 {
        '8'
    } else if n == 9 {
        '9'
    } else if n == 10 {
        'a'
    } else if n == 11 {
        'b'
    } else if n == 12 {
        'c'
    } else if n == 13 {
        'd'
    } else if n == 14 {
        'e'
    } else {
        'f'
    }
}

/// A number in decimal digits.
pub open spec fn decimal(n: int) -> Seq<char>
    decreases n,
{
    if n < 10 {
        seq![digit(n)]
    } else {
        decimal(n / 10).push(digit(n % 10))
    }
}

/// Bytes in hexadecimal digits.
pub open spec fn hex(bytes: Seq<u8>) -> Seq<char>
    decreases bytes.len(),
{
    if bytes.len() == 0 {
        Seq::empty()
    } else {
        hex(bytes.drop_last()).push(digit(bytes.last() as int / 16)).push(
            digit(bytes.last() as int % 16),
        )
    }
}

/// The lowest `n` bits of a mask in binary digits, the highest first.
pub open spec fn binary(m: u64, n: int) -> Seq<char> {
    Seq::new(
        if n < 0 {
            0
        } else {
            n as nat
        },
        |i: int|
            if bits::bit(m, n - 1 - i) {
                '1'
            } else {
                '0'
            },
    )
}

/// The number of binary digits of a mask, at least one and at least `width`.
pub open spec fn digits(m: u64, width: int) -> int {
    let needed = bits::highest_below(m, 64) + 1;
    let least = if width < 1 {
        1
    } else {
        width
    };
    if needed < least {
        least
    } else {
        needed
    }
}

/// The items of a ring as text: their bytes, or a dash for items without bytes.
pub open spec fn items_text(items: Seq<Seq<u8>>, zero_sized: bool) -> Seq<char>
    decreases items.len(),
{
    if items.len() == 0 {
        Seq::empty()
    } else {
        let front = items_text(items.drop_last(), zero_sized);
        let separated = if items.len() == 1 {
            front
        } else {
            front + seq![',', ' ']
        };
        if zero_sized {
            separated.push('-')
        } else {
            separated + seq!['0', 'x'] + hex(items.last())
        }
    }
}

/// A ring as text.
pub open spec fn ring_text(
    capacity: int,
    len: int,
    start: int,
    items: Seq<Seq<u8>>,
    zero_sized: bool,
) -> Seq<char> {
    "BlobDeque { capacity: "@ + decimal(capacity) + ", len: "@ + decimal(len) + ", start: "@
        + decimal(start) + ", items: \"["@ + items_text(items, zero_sized) + "]\" }"@
}

/// A ring with gaps as text.
pub open spec fn sparse_text(capacity: int, len: int, mask: u64, items: Seq<char>) -> Seq<char> {
    "SparseBlobDeque { capacity: "@ + decimal(capacity) + ", len: "@ + decimal(len)
        + ", mask: \""@ + binary(mask, digits(mask, len)) + "\", items: "@ + items + " }"@
}

/// A history as text.
pub open spec fn history_text(
    last_tick: int,
    removed_mask: u64,
    len: int,
    list: Seq<char>,
) -> Seq<char> {
    "ComponentHistory { last_tick: "@ + decimal(last_tick) + ", removed_mask: \""@ + binary(
        removed_mask,
        digits(removed_mask, len),
    ) + "\", list: "@ + list + " }"@
}

/// The bytes of items are what a function gives for them; nothing is asked of items without bytes.
pub open spec fn bytes_of<T, F: Fn(&T) -> Vec<u8>>(
    f: F,
    items: Seq<T>,
    zero_sized: bool,
    bytes: Seq<Seq<u8>>,
) -> bool {
    &&& bytes.len() == items.len()
    &&& !zero_sized ==> forall|i: int|
        0 <= i < items.len() ==> shown_as(f, items[i], #[trigger] bytes[i])
}

/// A function gives these bytes for an item.
pub open spec fn shown_as<T, F: Fn(&T) -> Vec<u8>>(f: F, item: T, bytes: Seq<u8>) -> bool {
    exists|v: Vec<u8>| #[trigger] call_ensures(f, (&item,), v) && v@ == bytes
}

fn push_digit(s: &mut String, n: u8)
    requires
        n < 16,
    ensures
        final(s)@ == old(s)@.push(digit(n as int)),
{
    proof {
        reveal_strlit("0");
        reveal_strlit("1");
        reveal_strlit("2");
        reveal_strlit("3");
        reveal_strlit("4");
        reveal_strlit("5");
        reveal_strlit("6");
        reveal_strlit("7");
        reveal_strlit("8");
        reveal_strlit("9");
        reveal_strlit("a");
        reveal_strlit("b");
        reveal_strlit("c");
        reveal_strlit("d");
        reveal_strlit("e");
        reveal_strlit("f");
    }
    let text: &str = match n {
        0 => "0",
        1 => "1",
        2 => "2",
        3 => "3",
        4 => "4",
        5 => "5",
        6 => "6",
        7 => "7",
        8 => "8",
        9 => "9",
        10 => "a",
        11 => "b",
        12 => "c",
        13 => "d",
        14 => "e",
        _ => "f",
    };
    s.append(text);
    proof {
        assert(text@ =~= seq![digit(n as int)]);
        assert(s@ =~= old(s)@.push(digit(n as int)));
    }
}

fn push_decimal(s: &mut String, n: u32)
    ensures
        final(s)@ == old(s)@ + decimal(n as int),
    decreases n,
{
    if n >= 10 {
        push_decimal(s, n / 10);
    }
    push_digit(s, (n % 10) as u8);
    proof {
        assert(s@ =~= old(s)@ + decimal(n as int));
    }
}

fn push_hex(s: &mut String, bytes: &Vec<u8>)
    ensures
        final(s)@ == old(s)@ + hex(bytes@),
{
    let ghost before = s@;
    let mut i: usize = 0;
    proof {
        assert(bytes@.take(0) =~= Seq::empty());
        assert(before + hex(bytes@.take(0)) =~= before);
    }
    while i < bytes.len()
        invariant
            i <= bytes@.len(),
            s@ == before + hex(bytes@.take(i as int)),
        decreases bytes@.len() - i,
    {
        let byte: u8 = bytes[i];
        push_digit(s, byte / 16);
        push_digit(s, byte % 16);
        proof {
            assert(bytes@.take(i + 1).drop_last() =~= bytes@.take(i as int));
            assert(s@ =~= before + hex(bytes@.take(i + 1)));
        }
        i = i + 1;
    }
    proof {
        assert(bytes@.take(bytes@.len() as int) =~= bytes@);
    }
}

fn push_binary(s: &mut String, m: u64, width: u8)
    requires
        width <= 64,
    ensures
        final(s)@ == old(s)@ + binary(m, digits(m, width as int)),
{
    let ghost before = s@;
    let mut n: u32 = 64 - m.leading_zeros();
    proof {
        bits::leading_zeros_is_highest(m);
        bits::highest_below_spec(m, 64);
    }
    if n < width as u32 {
        n = width as u32;
    }
    if n < 1 {
        n = 1;
    }
    let ghost all = binary(m, n as int);
    let mut k: u32 = n;
    proof {
        assert(before + all.take(0) =~= before);
    }
    while k > 0
        invariant
            k <= n <= 64,
            all == binary(m, n as int),
            s@ == before + all.take(n - k),
        decreases k,
    {
        k = k - 1;
        proof {
            super::sparse_blob_deque::bit_of_masked(m, k as u64);
        }
        if m & (1u64 << (k as u64)) != 0 {
            push_digit(s, 1);
        } else {
            push_digit(s, 0);
        }
        proof {
            assert(s@ =~= before + all.take(n - k));
        }
    }
    proof {
        assert(all.take(n as int) =~= all);
    }
}

impl<T> BlobDeque<T> {
    /// Append the items as text, given their bytes.
    fn push_items<F: Fn(&T) -> Vec<u8>>(&self, s: &mut String, bytes: &F) -> (all: Ghost<
        Seq<Seq<u8>>,
    >)
        requires
            self.wf(),
            forall|item: &T| #[trigger] call_requires(*bytes, (item,)),
        ensures
            bytes_of(*bytes, self@, self.zero_sized(), all@),
            final(s)@ == old(s)@ + items_text(all@, self.zero_sized()),
    {
        let ghost before = s@;
        let ghost mut all: Seq<Seq<u8>> = Seq::empty();
        let ghost zero_sized = self.zero_sized();
        let ghost items = self@;
        let len: usize = self.len();
        let mut i: usize = 0;
        proof {
            reveal_strlit(", ");
            reveal_strlit("-");
            reveal_strlit("0x");
            assert(before + items_text(all, zero_sized) =~= before);
        }
        while i < len
            invariant
                self.wf(),
                items == self@,
                zero_sized == self.zero_sized(),
                len == items.len(),
                i <= len,
                all.len() == i,
                forall|item: &T| #[trigger] call_requires(*bytes, (item,)),
                bytes_of(*bytes, items.take(i as int), zero_sized, all),
                s@ == before + items_text(all, zero_sized),
            decreases len - i,
        {
            proof {
                reveal_strlit(", ");
                reveal_strlit("-");
                reveal_strlit("0x");
            }
            if i != 0 {
                s.append(", ");
            }
            let ghost mut shown: Seq<u8> = Seq::empty();
            if self.layout.size() == 0 {
                s.append("-");
            } else {
                s.append("0x");
                if let Some(item) = self.get(i) {
                    let raw: Vec<u8> = bytes(item);
                    push_hex(s, &raw);
                    proof {
                        shown = raw@;
                        assert(call_ensures(*bytes, (item,), raw));
                        assert(shown_as(*bytes, items[i as int], shown));
                    }
                }
            }
            proof {
                let next = all.push(shown);
                assert(next.drop_last() =~= all);
                assert(s@ =~= before + items_text(next, zero_sized));
                if !zero_sized {
                    assert forall|k: int| 0 <= k < i + 1 implies shown_as(
                        *bytes,
                        items.take(i + 1)[k],
                        #[trigger] next[k],
                    ) by {
                        if k < i {
                            assert(shown_as(*bytes, items.take(i as int)[k], all[k]));
                        } else {
                            assert(shown_as(*bytes, items[i as int], shown));
                        }
                    }
                }
                all = next;
            }
            i = i + 1;
        }
        proof {
            assert(items.take(len as int) =~= items);
        }
        Ghost(all)
    }

    /// The ring as text, given the bytes of its items.
    pub fn debug_text<F: Fn(&T) -> Vec<u8>>(&self, bytes: &F) -> (r: String)
        requires
            self.wf(),
            forall|item: &T| #[trigger] call_requires(*bytes, (item,)),
        ensures
            exists|all: Seq<Seq<u8>>| #[trigger]
                bytes_of(*bytes, self@, self.zero_sized(), all) && r@ == ring_text(
                    self.capacity as int,
                    self.len as int,
                    self.start as int,
                    all,
                    self.zero_sized(),
                ),
    {
        let mut s = String::new();
        s.append("BlobDeque { capacity: ");
        push_decimal(&mut s, self.capacity as u32);
        s.append(", len: ");
        push_decimal(&mut s, self.len as u32);
        s.append(", start: ");
        push_decimal(&mut s, self.start as u32);
        s.append(", items: \"[");
        let all = self.push_items(&mut s, bytes);
        s.append("]\" }");
        proof {
            assert(s@ =~= ring_text(
                self.capacity as int,
                self.len as int,
                self.start as int,
                all@,
                self.zero_sized(),
            ));
        }
        s
    }
}

impl<T> SparseBlobDeque<T> {
    /// The ring with gaps as text, given the bytes of its items.
    pub fn debug_text<F: Fn(&T) -> Vec<u8>>(&self, bytes: &F) -> (r: String)
        requires
            self.wf(),
            forall|item: &T| #[trigger] call_requires(*bytes, (item,)),
        ensures
            exists|all: Seq<Seq<u8>>| #[trigger]
                bytes_of(*bytes, self.items@, self.zero_sized(), all) && r@ == sparse_text(
                    self.capacity as int,
                    self.len as int,
                    self.mask,
                    ring_text(
                        self.items.capacity as int,
                        self.items.len as int,
                        self.items.start as int,
                        all,
                        self.zero_sized(),
                    ),
                ),
    {
        let mut s = String::new();
        s.append("SparseBlobDeque { capacity: ");
        push_decimal(&mut s, self.capacity as u32);
        s.append(", len: ");
        push_decimal(&mut s, self.len as u32);
        s.append(", mask: \"");
        push_binary(&mut s, self.mask, self.len);
        s.append("\", items: ");
        let items = self.items.debug_text(bytes);
        s.append(items.as_str());
        s.append(" }");
        proof {
            assert(s@ =~= sparse_text(
                self.capacity as int,
                self.len as int,
                self.mask,
                items@,
            ));
            let zero_sized = self.items.zero_sized();
            let all = choose|all: Seq<Seq<u8>>| #[trigger]
                bytes_of(*bytes, self.items@, zero_sized, all) && items@ == ring_text(
                    self.items.capacity as int,
                    self.items.len as int,
                    self.items.start as int,
                    all,
                    zero_sized,
                );
            assert(bytes_of(*bytes, self.items@, self.zero_sized(), all));
        }
        s
    }
}

impl<T> ComponentHistory<T> {
    /// The history as text, given the bytes of its values.
    pub fn debug_text<F: Fn(&T) -> Vec<u8>>(&self, bytes: &F) -> (r: String)
        requires
            self.wf(),
            forall|item: &T| #[trigger] call_requires(*bytes, (item,)),
        ensures
            exists|all: Seq<Seq<u8>>| #[trigger]
                bytes_of(*bytes, self.list.items@, self.list.zero_sized(), all) && r@
                    == history_text(
                    self.last_tick as int,
                    self.removed_mask,
                    self.list.len as int,
                    sparse_text(
                        self.list.capacity as int,
                        self.list.len as int,
                        self.list.mask,
                        ring_text(
                            self.list.items.capacity as int,
                            self.list.items.len as int,
                            self.list.items.start as int,
                            all,
                            self.list.zero_sized(),
                        ),
                    ),
                ),
    {
        let mut s = String::new();
        s.append("ComponentHistory { last_tick: ");
        push_decimal(&mut s, self.last_tick);
        s.append(", removed_mask: \"");
        push_binary(&mut s, self.removed_mask, self.list.len);
        s.append("\", list: ");
        let list = self.list.debug_text(bytes);
        s.append(list.as_str());
        s.append(" }");
        proof {
            assert(s@ =~= history_text(
                self.last_tick as int,
                self.removed_mask,
                self.list.len as int,
                list@,
            ));
        }
        s
    }
}

/// The number that a digit stands for.
pub open spec fn digit_value(c: char) -> int {
    if c as int >= 'a' as int {
        c as int - 'a' as int + 10
    } else {
        c as int - '0' as int
    }
}

/// The number that decimal digits stand for.
pub open spec fn number(text: Seq<char>) -> int
    decreases text.len(),
{
    if text.len() == 0 {
        0
    } else {
        10 * number(text.drop_last()) + digit_value(text.last())
    }
}

/// A digit stands for its number.
pub proof fn digit_is_read(n: int)
    requires
        0 <= n < 16,
    ensures
        digit_value(digit(n)) == n,
        n < 10 ==> '0' as int <= digit(n) as int <= '9' as int,
        n >= 10 ==> 'a' as int <= digit(n) as int <= 'f' as int,
{
}

/// A number reads back from its decimal digits, which do not begin with a zero unless the number is
/// zero.
pub proof fn decimal_is_read(n: int, i: int)
    requires
        0 <= n,
    ensures
        number(decimal(n)) == n,
        decimal(n).len() > 0,
        n > 0 ==> decimal(n)[0] != '0',
        n == 0 ==> decimal(n).len() == 1,
        0 <= i < decimal(n).len() ==> '0' as int <= decimal(n)[i] as int <= '9' as int,
    decreases n,
{
    if n < 10 {
        digit_is_read(n);
        assert(seq![digit(n)].drop_last() =~= Seq::<char>::empty());
        reveal_with_fuel(number, 2);
    } else {
        decimal_is_read(n / 10, i);
        digit_is_read(n % 10);
        assert(decimal(n).drop_last() =~= decimal(n / 10));
    }
}

/// Every byte is two hexadecimal digits.
pub proof fn bytes_are_read(bytes: Seq<u8>, i: int)
    ensures
        hex(bytes).len() == 2 * bytes.len(),
        0 <= i < bytes.len() ==> 16 * digit_value(hex(bytes)[2 * i]) + digit_value(
            hex(bytes)[2 * i + 1],
        ) == bytes[i],
    decreases bytes.len(),
{
    if bytes.len() > 0 {
        bytes_are_read(bytes.drop_last(), i);
        digit_is_read(bytes.last() as int / 16);
        digit_is_read(bytes.last() as int % 16);
    }
}

/// A mask is as many binary digits as asked for, or as it takes to show its highest bit, and at least
/// one; each digit tells whether its bit is set, and no higher bit is.
pub proof fn bits_are_read(m: u64, width: int, k: int)
    requires
        0 <= width <= 64,
        0 <= k < 64,
    ensures
        ({
            let n = digits(m, width);
            let text = binary(m, n);
            &&& text.len() == n
            &&& n >= 1 && n >= width
            &&& n > 1 && n > width ==> bits::bit(m, n - 1)
            &&& k < n ==> text[n - 1 - k] == if bits::bit(m, k) {
                '1'
            } else {
                '0'
            }
            &&& k >= n ==> !bits::bit(m, k)
        }),
{
    bits::highest_below_spec(m, 64);
}

/// The items are shown one after the other with a comma between them, in their order: the text of two
/// stretches of items is that of both. One item is shown by its bytes, or as a dash where it has none.
pub proof fn items_are_shown_in_turn(
    a: Seq<Seq<u8>>,
    b: Seq<Seq<u8>>,
    item: Seq<u8>,
    zero_sized: bool,
)
    ensures
        items_text(Seq::empty(), zero_sized) =~= Seq::<char>::empty(),
        items_text(seq![item], true) =~= seq!['-'],
        items_text(seq![item], false) =~= seq!['0', 'x'] + hex(item),
        a.len() > 0 && b.len() > 0 ==> items_text(a + b, zero_sized) =~= items_text(a, zero_sized)
            + seq![',', ' '] + items_text(b, zero_sized),
    decreases b.len(),
{
    reveal_with_fuel(items_text, 2);
    assert(seq![item].drop_last() =~= Seq::<Seq<u8>>::empty());
    if a.len() > 0 && b.len() > 0 {
        assert((a + b).drop_last() =~= a + b.drop_last());
        assert((a + b).last() == b.last());
        if b.len() == 1 {
            assert(a + b.drop_last() =~= a);
        } else {
            items_are_shown_in_turn(a, b.drop_last(), item, zero_sized);
        }
    }
}

/// The text of a ring names its capacity, its length and its start, and then its items.
pub proof fn ring_is_spelled_out(
    capacity: int,
    len: int,
    start: int,
    items: Seq<Seq<u8>>,
    zero_sized: bool,
)
    requires
        0 <= capacity,
        0 <= len,
        0 <= start,
    ensures
        exists|c: Seq<char>, l: Seq<char>, s: Seq<char>|
            number(c) == capacity && number(l) == len && number(s) == start && ring_text(
                capacity,
                len,
                start,
                items,
                zero_sized,
            ) == #[trigger] ring_parts(c, l, s, items_text(items, zero_sized)),
{
    decimal_is_read(capacity, 0);
    decimal_is_read(len, 0);
    decimal_is_read(start, 0);
    assert(ring_text(capacity, len, start, items, zero_sized) == ring_parts(
        decimal(capacity),
        decimal(len),
        decimal(start),
        items_text(items, zero_sized),
    ));
}

/// The parts of a ring's text with their names.
pub open spec fn ring_parts(
    capacity: Seq<char>,
    len: Seq<char>,
    start: Seq<char>,
    items: Seq<char>,
) -> Seq<char> {
    "BlobDeque { capacity: "@ + capacity + ", len: "@ + len + ", start: "@ + start
        + ", items: \"["@ + items + "]\" }"@
}

/// The text of a ring with gaps names its capacity and its length, which slots hold an item, and then
/// the ring of items.
pub proof fn gaps_are_spelled_out(capacity: int, len: int, mask: u64, items: Seq<char>)
    requires
        0 <= capacity,
        0 <= len,
    ensures
        exists|c: Seq<char>, l: Seq<char>|
            number(c) == capacity && number(l) == len && sparse_text(capacity, len, mask, items)
                == #[trigger] sparse_parts(c, l, binary(mask, digits(mask, len)), items),
{
    decimal_is_read(capacity, 0);
    decimal_is_read(len, 0);
    assert(sparse_text(capacity, len, mask, items) == sparse_parts(
        decimal(capacity),
        decimal(len),
        binary(mask, digits(mask, len)),
        items,
    ));
}

/// The parts of the text of a ring with gaps with their names.
pub open spec fn sparse_parts(
    capacity: Seq<char>,
    len: Seq<char>,
    mask: Seq<char>,
    items: Seq<char>,
) -> Seq<char> {
    "SparseBlobDeque { capacity: "@ + capacity + ", len: "@ + len + ", mask: \""@ + mask
        + "\", items: "@ + items + " }"@
}

/// The text of a history names its last tick and the removals, and then its slots.
pub proof fn history_is_spelled_out(
    last_tick: int,
    removed_mask: u64,
    len: int,
    list: Seq<char>,
)
    requires
        0 <= last_tick,
    ensures
        exists|t: Seq<char>|
            number(t) == last_tick && history_text(last_tick, removed_mask, len, list)
                == #[trigger] history_parts(t, binary(removed_mask, digits(removed_mask, len)), list),
{
    decimal_is_read(last_tick, 0);
    assert(history_text(last_tick, removed_mask, len, list) == history_parts(
        decimal(last_tick),
        binary(removed_mask, digits(removed_mask, len)),
        list,
    ));
}

/// The parts of a history's text with their names.
pub open spec fn history_parts(
    last_tick: Seq<char>,
    removed: Seq<char>,
    list: Seq<char>,
) -> Seq<char> {
    "ComponentHistory { last_tick: "@ + last_tick + ", removed_mask: \""@ + removed
        + "\", list: "@ + list + " }"@
}

} // verus!
