//! The compiler: source text to byte program. The text is split into words,
//! the words are read as labels and instructions, label addresses are
//! resolved by byte offset, and the bytes are emitted.
use vstd::prelude::*;

verus! {

/// Space, tab, line feed, carriage return.
pub open spec fn is_space(c: u8) -> bool {
    c == 32 || c == 9 || c == 10 || c == 13
}

/// The maximal runs of non-space bytes of `s`, in order.
pub open spec fn words(s: Seq<u8>) -> Seq<Seq<u8>>
    decreases s.len(),
{
    if s.len() == 0 {
        seq![]
    } else {
        let w = words(s.drop_last());
        let c = s.last();
        if is_space(c) {
            w
        } else if w.len() > 0 && s.len() >= 2 && !is_space(s[s.len() - 2]) {
            w.drop_last().push(w.last().push(c))
        } else {
            w.push(seq![c])
        }
    }
}

/// The models of a sequence of words.
pub open spec fn views_of(v: Seq<Vec<u8>>) -> Seq<Seq<u8>> {
    v.map_values(|t: Vec<u8>| t@)
}

/// Splits `src` into its words.
pub fn tokenize(src: &[u8]) -> (r: Vec<Vec<u8>>)
    ensures
        views_of(r@) == words(src@),
{
    let mut toks: Vec<Vec<u8>> = Vec::new();
    let mut cur: Vec<u8> = Vec::new();
    let mut i: usize = 0;
    while i < src.len()
        invariant
            i <= src@.len(),
            cur@.len() > 0 <==> (i > 0 && !is_space(src@[i - 1])),
            words(src@.subrange(0, i as int)) == if cur@.len() > 0 {
                views_of(toks@).push(cur@)
            } else {
                views_of(toks@)
            },
        decreases src@.len() - i,
    {
        let c = src[i];
        let ghost pre = src@.subrange(0, i as int);
        let ghost w = words(pre);
        let ghost s1 = src@.subrange(0, i + 1);
        assert(s1.drop_last() =~= pre);
        assert(s1.last() == c);
        assert(i > 0 ==> s1[s1.len() - 2] == src@[i - 1]);
        if c == 32 || c == 9 || c == 10 || c == 13 {
            if cur.len() > 0 {
                let ghost t0 = toks@;
                toks.push(cur);
                assert(views_of(toks@) =~= views_of(t0).push(cur@));
                cur = Vec::new();
            }
        } else {
            let ghost cur0 = cur@;
            if cur.len() > 0 {
                assert(w.drop_last() =~= views_of(toks@));
                assert(w.last() == cur0);
            }
            cur.push(c);
            proof {
                if cur0.len() > 0 {
                    assert(words(s1) == views_of(toks@).push(cur@));
                } else {
                    assert(cur@ =~= seq![c]);
                    assert(words(s1) == views_of(toks@).push(cur@));
                }
            }
        }
        i = i + 1;
        assert(views_of(toks@).push(cur@).drop_last() =~= views_of(toks@));
    }
    assert(src@.subrange(0, i as int) =~= src@);
    if cur.len() > 0 {
        let ghost t0 = toks@;
        toks.push(cur);
        assert(views_of(toks@) =~= views_of(t0).push(cur@));
    }
    toks
}

/// Why source text could not be compiled. `token` is the index of the
/// offending word among the words of the text.
#[derive(Debug, Clone, Copy, PartialEq, Eq, Structural)]
pub enum CompileError {
    /// An unknown mnemonic, or a missing or malformed operand.
    Syntax { token: usize },
    /// A jump names a label that the text never defines.
    UndefinedLabel { token: usize },
    /// A jump names a label whose address does not fit in one byte.
    AddressOutOfRange { token: usize },
    /// A label is defined a second time.
    DuplicateLabel { token: usize },
}

/// Where a jump goes.
#[derive(Debug, Clone)]
pub enum Target {
    Address(u8),
    /// A label, by name, and the index of the word that names it.
    Label { name: Vec<u8>, token: usize },
}

/// One element of a parsed program.
#[derive(Debug, Clone)]
pub enum Item {
    /// `name:`, which binds `name` to the address of what follows; `token` is
    /// the index of its word.
    Label { name: Vec<u8>, token: usize },
    /// An instruction of one byte.
    Op(u8),
    /// `push v`.
    Push(u8),
    /// `jmp t` (opcode 0x30) or `jnz t` (opcode 0x31).
    Jump(u8, Target),
}

/// The model of a `Target`.
pub ghost enum TargetView {
    Address(u8),
    Label { name: Seq<u8>, token: usize },
}

/// The model of an `Item`.
pub ghost enum ItemView {
    Label { name: Seq<u8>, token: usize },
    Op(u8),
    Push(u8),
    Jump(u8, TargetView),
}

impl View for Target {
    type V = TargetView;

    open spec fn view(&self) -> TargetView {
        match self {
            Target::Address(a) => TargetView::Address(*a),
            Target::Label { name, token } => TargetView::Label { name: name@, token: *token },
        }
    }
}

impl View for Item {
    type V = ItemView;

    open spec fn view(&self) -> ItemView {
        match self {
            Item::Label { name, token } => ItemView::Label { name: name@, token: *token },
            Item::Op(o) => ItemView::Op(*o),
            Item::Push(v) => ItemView::Push(*v),
            Item::Jump(o, t) => ItemView::Jump(*o, t@),
        }
    }
}

/// The models of a sequence of items.
pub open spec fn items_view(v: Seq<Item>) -> Seq<ItemView> {
    v.map_values(|it: Item| it@)
}

/// The opcode of a one-byte mnemonic.
pub open spec fn word_op(t: Seq<u8>) -> Option<u8> {
    if t == seq![110u8, 111, 112] {
        Some(0x00u8)
    } else if t == seq![97u8, 100, 100] {
        Some(0x01u8)
    } else if t == seq![115u8, 117, 98] {
        Some(0x02u8)
    } else if t == seq![109u8, 117, 108] {
        Some(0x03u8)
    } else if t == seq![100u8, 105, 118] {
        Some(0x04u8)
    } else if t == seq![109u8, 111, 100] {
        Some(0x05u8)
    } else if t == seq![112u8, 114, 105, 110, 116] {
        Some(0x10u8)
    } else if t == seq![112u8, 99, 104, 97, 114] {
        Some(0x11u8)
    } else if t == seq![114u8, 101, 116] {
        Some(0x12u8)
    } else if t == seq![115u8, 119, 112] {
        Some(0x21u8)
    } else if t == seq![112u8, 111, 112] {
        Some(0x22u8)
    } else if t == seq![100u8, 117, 112] {
        Some(0x23u8)
    } else if t == seq![101u8, 120, 105, 116] {
        Some(0xFFu8)
    } else {
        None
    }
}

/// The opcode of a mnemonic that takes an operand.
pub open spec fn operand_op(t: Seq<u8>) -> Option<u8> {
    if t == seq![112u8, 117, 115, 104] {
        Some(0x20u8)
    } else if t == seq![106u8, 109, 112] {
        Some(0x30u8)
    } else if t == seq![106u8, 110, 122] {
        Some(0x31u8)
    } else {
        None
    }
}

/// Whether two byte strings are equal.
fn eq_bytes(t: &[u8], w: &[u8]) -> (r: bool)
    ensures
        r == (t@ == w@),
{
    if t.len() != w.len() {
        return false;
    }
    let mut i: usize = 0;
    while i < t.len()
        invariant
            i <= t@.len(),
            t@.len() == w@.len(),
            forall|j: int| 0 <= j < i ==> t@[j] == w@[j],
        decreases t@.len() - i,
    {
        if t[i] != w[i] {
            return false;
        }
        i = i + 1;
    }
    assert(t@ =~= w@);
    true
}

/// The opcode of a one-byte mnemonic word.
fn mnemonic_op(t: &Vec<u8>) -> (r: Option<u8>)
    ensures
        r == word_op(t@),
{
    if eq_bytes(t.as_slice(), &[110, 111, 112]) {
        assert([110u8, 111, 112]@ =~= seq![110u8, 111, 112]);
        Some(0x00)
    } else if eq_bytes(t.as_slice(), &[97, 100, 100]) {
        assert([97u8, 100, 100]@ =~= seq![97u8, 100, 100]);
        Some(0x01)
    } else if eq_bytes(t.as_slice(), &[115, 117, 98]) {
        assert([115u8, 117, 98]@ =~= seq![115u8, 117, 98]);
        Some(0x02)
    } else if eq_bytes(t.as_slice(), &[109, 117, 108]) {
        assert([109u8, 117, 108]@ =~= seq![109u8, 117, 108]);
        Some(0x03)
    } else if eq_bytes(t.as_slice(), &[100, 105, 118]) {
        assert([100u8, 105, 118]@ =~= seq![100u8, 105, 118]);
        Some(0x04)
    } else if eq_bytes(t.as_slice(), &[109, 111, 100]) {
        assert([109u8, 111, 100]@ =~= seq![109u8, 111, 100]);
        Some(0x05)
    } else if eq_bytes(t.as_slice(), &[112, 114, 105, 110, 116]) {
        assert([112u8, 114, 105, 110, 116]@ =~= seq![112u8, 114, 105, 110, 116]);
        Some(0x10)
    } else if eq_bytes(t.as_slice(), &[112, 99, 104, 97, 114]) {
        assert([112u8, 99, 104, 97, 114]@ =~= seq![112u8, 99, 104, 97, 114]);
        Some(0x11)
    } else if eq_bytes(t.as_slice(), &[114, 101, 116]) {
        assert([114u8, 101, 116]@ =~= seq![114u8, 101, 116]);
        Some(0x12)
    } else if eq_bytes(t.as_slice(), &[115, 119, 112]) {
        assert([115u8, 119, 112]@ =~= seq![115u8, 119, 112]);
        Some(0x21)
    } else if eq_bytes(t.as_slice(), &[112, 111, 112]) {
        assert([112u8, 111, 112]@ =~= seq![112u8, 111, 112]);
        Some(0x22)
    } else if eq_bytes(t.as_slice(), &[100, 117, 112]) {
        assert([100u8, 117, 112]@ =~= seq![100u8, 117, 112]);
        Some(0x23)
    } else if eq_bytes(t.as_slice(), &[101, 120, 105, 116]) {
        assert([101u8, 120, 105, 116]@ =~= seq![101u8, 120, 105, 116]);
        Some(0xFF)
    } else {
        assert([110u8, 111, 112]@ =~= seq![110u8, 111, 112]);
        assert([97u8, 100, 100]@ =~= seq![97u8, 100, 100]);
        assert([115u8, 117, 98]@ =~= seq![115u8, 117, 98]);
        assert([109u8, 117, 108]@ =~= seq![109u8, 117, 108]);
        assert([100u8, 105, 118]@ =~= seq![100u8, 105, 118]);
        assert([109u8, 111, 100]@ =~= seq![109u8, 111, 100]);
        assert([112u8, 114, 105, 110, 116]@ =~= seq![112u8, 114, 105, 110, 116]);
        assert([112u8, 99, 104, 97, 114]@ =~= seq![112u8, 99, 104, 97, 114]);
        assert([114u8, 101, 116]@ =~= seq![114u8, 101, 116]);
        assert([115u8, 119, 112]@ =~= seq![115u8, 119, 112]);
        assert([112u8, 111, 112]@ =~= seq![112u8, 111, 112]);
        assert([100u8, 117, 112]@ =~= seq![100u8, 117, 112]);
        assert([101u8, 120, 105, 116]@ =~= seq![101u8, 120, 105, 116]);
        None
    }
}

/// An ASCII decimal digit.
pub open spec fn is_digit(c: u8) -> bool {
    48 <= c <= 57
}

/// A non-empty word of decimal digits.
pub open spec fn all_digits(t: Seq<u8>) -> bool {
    t.len() > 0 && forall|i: int| 0 <= i < t.len() ==> is_digit(#[trigger] t[i])
}

/// The number that the decimal digits `t` write.
pub open spec fn decimal(t: Seq<u8>) -> nat
    decreases t.len(),
{
    if t.len() == 0 {
        0
    } else {
        decimal(t.drop_last()) * 10 + (t.last() - 48) as nat
    }
}

/// A word of decimal digits whose number fits in a byte.
pub open spec fn number_byte(t: Seq<u8>) -> Option<u8> {
    if all_digits(t) && decimal(t) <= 255 {
        Some(decimal(t) as u8)
    } else {
        None
    }
}

/// A word `name:` that defines a label.
pub open spec fn is_label(t: Seq<u8>) -> bool {
    t.len() >= 2 && t.last() == 58
}

/// The byte that a word of decimal digits writes.
fn parse_number(t: &Vec<u8>) -> (r: Option<u8>)
    ensures
        r == number_byte(t@),
{
    if t.len() == 0 {
        return None;
    }
    let mut acc: u32 = 0;
    let mut i: usize = 0;
    while i < t.len()
        invariant
            i <= t@.len(),
            forall|j: int| 0 <= j < i ==> is_digit(#[trigger] t@[j]),
            acc as nat == if decimal(t@.subrange(0, i as int)) < 256 {
                decimal(t@.subrange(0, i as int))
            } else {
                256
            },
        decreases t@.len() - i,
    {
        let c = t[i];
        if c < 48 || c > 57 {
            return None;
        }
        let ghost pre = t@.subrange(0, i as int);
        let ghost s1 = t@.subrange(0, i + 1);
        assert(s1.drop_last() =~= pre);
        assert(decimal(s1) == decimal(pre) * 10 + (c - 48) as nat);
        let next: u32 = acc * 10 + (c - 48) as u32;
        acc = if next > 256 {
            256
        } else {
            next
        };
        proof {
            if decimal(pre) >= 256 {
                assert(decimal(s1) >= 256) by (nonlinear_arith)
                    requires
                        decimal(s1) == decimal(pre) * 10 + (c - 48) as nat,
                        decimal(pre) >= 256,
                ;
            }
        }
        i = i + 1;
    }
    assert(t@.subrange(0, i as int) =~= t@);
    if acc > 255 {
        None
    } else {
        Some(acc as u8)
    }
}

/// A copy of the first `n` bytes of `t`.
fn copy_prefix(t: &Vec<u8>, n: usize) -> (r: Vec<u8>)
    requires
        n <= t@.len(),
    ensures
        r@ == t@.subrange(0, n as int),
{
    let mut r: Vec<u8> = Vec::new();
    let mut i: usize = 0;
    while i < n
        invariant
            i <= n,
            n <= t@.len(),
            r@ == t@.subrange(0, i as int),
        decreases n - i,
    {
        r.push(t[i]);
        i = i + 1;
        assert(r@ =~= t@.subrange(0, i as int));
    }
    r
}

/// `it` in front of a parse result.
pub open spec fn cons_item(it: ItemView, r: Result<Seq<ItemView>, CompileError>) -> Result<
    Seq<ItemView>,
    CompileError,
> {
    match r {
        Ok(rest) => Ok(seq![it] + rest),
        Err(e) => Err(e),
    }
}

/// `p` in front of a parse result.
pub open spec fn prepend_items(p: Seq<ItemView>, r: Result<Seq<ItemView>, CompileError>) -> Result<
    Seq<ItemView>,
    CompileError,
> {
    match r {
        Ok(rest) => Ok(p + rest),
        Err(e) => Err(e),
    }
}

/// The items that the words `ts` from index `i` on read as.
pub open spec fn parse_from(ts: Seq<Seq<u8>>, i: int) -> Result<Seq<ItemView>, CompileError>
    decreases ts.len() - i,
{
    if i < 0 || i >= ts.len() {
        Ok(seq![])
    } else {
        let t = ts[i];
        if is_label(t) {
            cons_item(ItemView::Label { name: t.drop_last(), token: i as usize }, parse_from(ts, i + 1))
        } else if let Some(o) = word_op(t) {
            cons_item(ItemView::Op(o), parse_from(ts, i + 1))
        } else if let Some(o) = operand_op(t) {
            if i + 1 >= ts.len() {
                Err(CompileError::Syntax { token: i as usize })
            } else {
                let a = ts[i + 1];
                if o != 0x20 && !all_digits(a) {
                    cons_item(
                        ItemView::Jump(o, TargetView::Label { name: a, token: (i + 1) as usize }),
                        parse_from(ts, i + 2),
                    )
                } else if let Some(v) = number_byte(a) {
                    let it = if o == 0x20 {
                        ItemView::Push(v)
                    } else {
                        ItemView::Jump(o, TargetView::Address(v))
                    };
                    cons_item(it, parse_from(ts, i + 2))
                } else {
                    Err(CompileError::Syntax { token: (i + 1) as usize })
                }
            }
        } else {
            Err(CompileError::Syntax { token: i as usize })
        }
    }
}

proof fn lemma_prepend_cons(p: Seq<ItemView>, x: ItemView, r: Result<Seq<ItemView>, CompileError>)
    ensures
        prepend_items(p, cons_item(x, r)) == prepend_items(p.push(x), r),
{
    if let Ok(rest) = r {
        assert(p + (seq![x] + rest) =~= p.push(x) + rest);
    }
}

/// Reads words as labels and instructions.
pub fn parse_items(ts: &Vec<Vec<u8>>) -> (r: Result<Vec<Item>, CompileError>)
    ensures
        match r {
            Ok(items) => parse_from(views_of(ts@), 0) == Ok::<Seq<ItemView>, CompileError>(
                items_view(items@),
            ),
            Err(e) => parse_from(views_of(ts@), 0) == Err::<Seq<ItemView>, CompileError>(e),
        },
{
    let ghost v = views_of(ts@);
    let mut items: Vec<Item> = Vec::new();
    let mut i: usize = 0;
    assert(prepend_items(seq![], parse_from(v, 0)) == parse_from(v, 0)) by {
        if let Ok(rest) = parse_from(v, 0) {
            assert(Seq::<ItemView>::empty() + rest =~= rest);
        }
    }
    while i < ts.len()
        invariant
            i <= ts@.len(),
            v == views_of(ts@),
            parse_from(v, 0) == prepend_items(items_view(items@), parse_from(v, i as int)),
        decreases ts@.len() - i,
    {
        let t = &ts[i];
        assert(v[i as int] == t@);
        let ghost p = items_view(items@);
        let it: Item;
        let step: usize;
        if t.len() >= 2 && t[t.len() - 1] == 58 {
            it = Item::Label { name: copy_prefix(t, t.len() - 1), token: i };
            step = 1;
        } else if let Some(o) = mnemonic_op(t) {
            it = Item::Op(o);
            step = 1;
        } else {
            let o: u8;
            if eq_bytes(t.as_slice(), &[112, 117, 115, 104]) {
                o = 0x20;
            } else if eq_bytes(t.as_slice(), &[106, 109, 112]) {
                o = 0x30;
            } else if eq_bytes(t.as_slice(), &[106, 110, 122]) {
                o = 0x31;
            } else {
                assert([112u8, 117, 115, 104]@ =~= seq![112u8, 117, 115, 104]);
                assert([106u8, 109, 112]@ =~= seq![106u8, 109, 112]);
                assert([106u8, 110, 122]@ =~= seq![106u8, 110, 122]);
                return Err(CompileError::Syntax { token: i });
            }
            assert([112u8, 117, 115, 104]@ =~= seq![112u8, 117, 115, 104]);
            assert([106u8, 109, 112]@ =~= seq![106u8, 109, 112]);
            assert([106u8, 110, 122]@ =~= seq![106u8, 110, 122]);
            assert(operand_op(t@) == Some(o));
            if i + 1 >= ts.len() {
                return Err(CompileError::Syntax { token: i });
            }
            let a = &ts[i + 1];
            assert(v[i + 1] == a@);
            let mut digits = a.len() > 0;
            let mut j: usize = 0;
            while j < a.len()
                invariant
                    j <= a@.len(),
                    digits == (a@.len() > 0 && forall|k: int| 0 <= k < j ==> is_digit(#[trigger] a@[k])),
                decreases a@.len() - j,
            {
                if a[j] < 48 || a[j] > 57 {
                    digits = false;
                }
                j = j + 1;
            }
            if o != 0x20 && !digits {
                it = Item::Jump(o, Target::Label { name: copy_prefix(a, a.len()), token: i + 1 });
                assert(a@.subrange(0, a@.len() as int) =~= a@);
            } else {
                match parse_number(a) {
                    Some(n) => {
                        it = if o == 0x20 {
                            Item::Push(n)
                        } else {
                            Item::Jump(o, Target::Address(n))
                        };
                    },
                    None => {
                        return Err(CompileError::Syntax { token: i + 1 });
                    },
                }
            }
            step = 2;
        }
        assert(parse_from(v, i as int) == cons_item(it@, parse_from(v, i + step)));
        proof {
            lemma_prepend_cons(p, it@, parse_from(v, i + step));
        }
        items.push(it);
        assert(items_view(items@) =~= p.push(it@));
        i = i + step;
    }
    proof {
        if let Ok(rest) = parse_from(v, i as int) {
            assert(items_view(items@) + rest =~= items_view(items@));
        }
    }
    Ok(items)
}

/// How many bytes an item takes in the program.
pub open spec fn width(it: ItemView) -> nat {
    match it {
        ItemView::Label { .. } => 0,
        ItemView::Op(_) => 1,
        _ => 2,
    }
}

/// The byte address of the first definition of label `name` in `items`: the
/// total width of the items before it.
pub open spec fn label_addr(items: Seq<ItemView>, name: Seq<u8>) -> Option<nat>
    decreases items.len(),
{
    if items.len() == 0 {
        None
    } else if (match items[0] {
        ItemView::Label { name: n, .. } => n == name,
        _ => false,
    }) {
        Some(0)
    } else {
        match label_addr(items.skip(1), name) {
            Some(a) => Some(a + width(items[0])),
            None => None,
        }
    }
}

/// An address moved on by `off`.
pub open spec fn shifted(off: nat, a: Option<nat>) -> Option<nat> {
    match a {
        Some(x) => Some(x + off),
        None => None,
    }
}

/// The address of label `name` among the first `end` items, capped at 256
/// (no byte can hold it then).
fn find_label(items: &Vec<Item>, name: &Vec<u8>, end: usize) -> (r: Option<usize>)
    requires
        end <= items@.len(),
    ensures
        match r {
            Some(a) => label_addr(items_view(items@).subrange(0, end as int), name@) matches Some(x)
                && a == if x < 256 {
                x
            } else {
                256
            },
            None => label_addr(items_view(items@).subrange(0, end as int), name@) is None,
        },
{
    let ghost v = items_view(items@).subrange(0, end as int);
    let ghost mut off: nat = 0;
    let mut off_c: usize = 0;
    let mut i: usize = 0;
    assert(v.skip(0) =~= v);
    while i < end
        invariant
            i <= end,
            end <= items@.len(),
            v == items_view(items@).subrange(0, end as int),
            off_c as nat == if off < 256 { off } else { 256 },
            label_addr(v, name@) == shifted(off, label_addr(v.skip(i as int), name@)),
        decreases end - i,
    {
        let ghost rest = v.skip(i as int);
        assert(rest[0] == items@[i as int]@);
        assert(rest.skip(1) =~= v.skip(i + 1));
        let found = match &items[i] {
            Item::Label { name: n, .. } => eq_bytes(n.as_slice(), name.as_slice()),
            _ => false,
        };
        if found {
            return Some(off_c);
        }
        let w: usize = match &items[i] {
            Item::Label { .. } => 0,
            Item::Op(_) => 1,
            _ => 2,
        };
        assert(w == width(rest[0]));
        proof {
            off = off + w as nat;
        }
        off_c = if off_c + w >= 256 { 256 } else { off_c + w };
        i = i + 1;
    }
    None
}

/// The bytes of one item of the program `all`.
pub open spec fn item_bytes(it: ItemView, all: Seq<ItemView>) -> Result<Seq<u8>, CompileError> {
    match it {
        ItemView::Label { .. } => Ok(seq![]),
        ItemView::Op(o) => Ok(seq![o]),
        ItemView::Push(v) => Ok(seq![0x20u8, v]),
        ItemView::Jump(o, TargetView::Address(a)) => Ok(seq![o, a]),
        ItemView::Jump(o, TargetView::Label { name, token }) => match label_addr(all, name) {
            None => Err(CompileError::UndefinedLabel { token }),
            Some(a) => if a <= 255 {
                Ok(seq![o, a as u8])
            } else {
                Err(CompileError::AddressOutOfRange { token })
            },
        },
    }
}

/// `p` in front of an emission result.
pub open spec fn prepend_bytes(p: Seq<u8>, r: Result<Seq<u8>, CompileError>) -> Result<
    Seq<u8>,
    CompileError,
> {
    match r {
        Ok(rest) => Ok(p + rest),
        Err(e) => Err(e),
    }
}

/// The bytes of the items of `all` from index `i` on, then EXIT; or the first
/// error among them, a label defined before too being one.
pub open spec fn emit_from(all: Seq<ItemView>, i: int) -> Result<Seq<u8>, CompileError>
    decreases all.len() - i,
{
    if i < 0 || i >= all.len() {
        Ok(seq![0xFFu8])
    } else {
        match all[i] {
            ItemView::Label { name, token } if label_addr(all.subrange(0, i), name) is Some => Err(
                CompileError::DuplicateLabel { token },
            ),
            _ => match item_bytes(all[i], all) {
                Err(e) => Err(e),
                Ok(b) => prepend_bytes(b, emit_from(all, i + 1)),
            },
        }
    }
}

/// The byte program of parsed items: each item's bytes, with label names
/// replaced by their addresses, then EXIT.
pub fn emit(items: &Vec<Item>) -> (r: Result<Vec<u8>, CompileError>)
    ensures
        match r {
            Ok(code) => emit_from(items_view(items@), 0) == Ok::<Seq<u8>, CompileError>(code@),
            Err(e) => emit_from(items_view(items@), 0) == Err::<Seq<u8>, CompileError>(e),
        },
{
    let ghost v = items_view(items@);
    let mut code: Vec<u8> = Vec::new();
    let mut i: usize = 0;
    assert(prepend_bytes(seq![], emit_from(v, 0)) == emit_from(v, 0)) by {
        if let Ok(rest) = emit_from(v, 0) {
            assert(Seq::<u8>::empty() + rest =~= rest);
        }
    }
    while i < items.len()
        invariant
            i <= items@.len(),
            v == items_view(items@),
            emit_from(v, 0) == prepend_bytes(code@, emit_from(v, i as int)),
        decreases items@.len() - i,
    {
        let ghost c0 = code@;
        assert(v[i as int] == items@[i as int]@);
        match &items[i] {
            Item::Label { name, token } => {
                if find_label(items, name, i).is_some() {
                    return Err(CompileError::DuplicateLabel { token: *token });
                }
            },
            Item::Op(o) => {
                code.push(*o);
            },
            Item::Push(n) => {
                code.push(0x20);
                code.push(*n);
            },
            Item::Jump(o, Target::Address(a)) => {
                code.push(*o);
                code.push(*a);
            },
            Item::Jump(o, Target::Label { name, token }) => {
                assert(items_view(items@).subrange(0, items@.len() as int) =~= v);
                match find_label(items, name, items.len()) {
                    None => {
                        return Err(CompileError::UndefinedLabel { token: *token });
                    },
                    Some(a) => {
                        if a > 255 {
                            return Err(CompileError::AddressOutOfRange { token: *token });
                        }
                        code.push(*o);
                        code.push(a as u8);
                    },
                }
            },
        }
        proof {
            let b = item_bytes(v[i as int], v).unwrap();
            assert(code@ =~= c0 + b);
            if let Ok(rest) = emit_from(v, i + 1) {
                assert(c0 + (b + rest) =~= code@ + rest);
            }
        }
        i = i + 1;
    }
    let ghost c0 = code@;
    code.push(0xFF);
    assert(c0 + seq![0xFFu8] =~= code@);
    Ok(code)
}

/// What source text compiles to: a byte program, or the first error.
pub open spec fn compile_spec(src: Seq<u8>) -> Result<Seq<u8>, CompileError> {
    match parse_from(words(src), 0) {
        Ok(items) => emit_from(items, 0),
        Err(e) => Err(e),
    }
}

/// Compiles source text to a byte program.
pub fn compile(src: &[u8]) -> (r: Result<Vec<u8>, CompileError>)
    ensures
        match r {
            Ok(code) => compile_spec(src@) == Ok::<Seq<u8>, CompileError>(code@),
            Err(e) => compile_spec(src@) == Err::<Seq<u8>, CompileError>(e),
        },
{
    let items = InputParser::parse(src)?;
    emit(&items)
}

/// Each label definition of `items` from address `off` on, with its byte
/// address, in order of definition.
pub open spec fn label_table(items: Seq<ItemView>, off: nat) -> Seq<(Seq<u8>, nat)>
    decreases items.len(),
{
    if items.len() == 0 {
        seq![]
    } else {
        match items[0] {
            ItemView::Label { name: n, .. } => seq![(n, off)] + label_table(items.skip(1), off),
            _ => label_table(items.skip(1), off + width(items[0])),
        }
    }
}

/// The address of the first entry for `name` in a label table.
pub open spec fn table_lookup(t: Seq<(Seq<u8>, nat)>, name: Seq<u8>) -> Option<nat>
    decreases t.len(),
{
    if t.len() == 0 {
        None
    } else if t[0].0 == name {
        Some(t[0].1)
    } else {
        table_lookup(t.skip(1), name)
    }
}

/// The model of a label table.
pub open spec fn table_view(t: Seq<(Vec<u8>, usize)>) -> Seq<(Seq<u8>, nat)> {
    t.map_values(|e: (Vec<u8>, usize)| (e.0@, e.1 as nat))
}

/// The label table of a parsed program: each label with the byte address of
/// what follows it.
pub fn process_labels(items: &Vec<Item>) -> (r: Vec<(Vec<u8>, usize)>)
    requires
        items@.len() < usize::MAX / 2,
    ensures
        table_view(r@) == label_table(items_view(items@), 0),
{
    let ghost v = items_view(items@);
    let mut table: Vec<(Vec<u8>, usize)> = Vec::new();
    let mut off: usize = 0;
    let mut i: usize = 0;
    assert(v.skip(0) =~= v);
    assert(table_view(table@) + label_table(v, 0) =~= label_table(v, 0));
    while i < items.len()
        invariant
            i <= items@.len(),
            items@.len() < usize::MAX / 2,
            off <= 2 * i,
            v == items_view(items@),
            label_table(v, 0) == table_view(table@) + label_table(v.skip(i as int), off as nat),
        decreases items@.len() - i,
    {
        let ghost rest = v.skip(i as int);
        let ghost t0 = table_view(table@);
        assert(rest[0] == items@[i as int]@);
        assert(rest.skip(1) =~= v.skip(i + 1));
        match &items[i] {
            Item::Label { name: n, .. } => {
                table.push((copy_prefix(n, n.len()), off));
                assert(n@.subrange(0, n@.len() as int) =~= n@);
                assert(table_view(table@) =~= t0.push((n@, off as nat)));
                assert(t0 + (seq![(n@, off as nat)] + label_table(v.skip(i + 1), off as nat))
                    =~= t0.push((n@, off as nat)) + label_table(v.skip(i + 1), off as nat));
            },
            Item::Op(_) => {
                off = off + 1;
            },
            _ => {
                off = off + 2;
            },
        }
        i = i + 1;
    }
    assert(table_view(table@) + Seq::<(Seq<u8>, nat)>::empty() =~= table_view(table@));
    table
}

/// The source reader: text to parsed items.
pub struct InputParser;

impl InputParser {
    /// Splits `src` into words and reads them as labels and instructions.
    pub fn parse(src: &[u8]) -> (r: Result<Vec<Item>, CompileError>)
        ensures
            match r {
                Ok(items) => parse_from(words(src@), 0) == Ok::<Seq<ItemView>, CompileError>(
                    items_view(items@),
                ),
                Err(e) => parse_from(words(src@), 0) == Err::<Seq<ItemView>, CompileError>(e),
            },
    {
        let tokens = tokenize(src);
        parse_items(&tokens)
    }
}

} // verus!
