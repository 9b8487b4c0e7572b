use vstd::prelude::*;
use vstd::slice::slice_index_get;

verus! {

/// The ASCII byte of the dot that separates labels in presentation form.
pub const DOT_BYTE: u8 = 46;

/// A byte allowed inside a canonical (already lower-cased) label:
/// `a`-`z`, `0`-`9`, `-` or `_`.
pub open spec fn label_byte_ok(b: u8) -> bool {
    (97 <= b && b <= 122) || (48 <= b && b <= 57) || b == 45 || b == 95
}

/// Case normalization: an upper-case ASCII letter maps to its lower-case
/// form, every other byte is unchanged.
pub open spec fn to_lower(b: u8) -> u8 {
    if 65 <= b && b <= 90 {
        (b + 32) as u8
    } else {
        b
    }
}

/// The whole byte sequence, case-normalized.
pub open spec fn lower_all(t: Seq<u8>) -> Seq<u8> {
    t.map(|i: int, b: u8| to_lower(b))
}

/// A well-formed canonical label: one to sixty-three allowed bytes.
pub open spec fn wf_label(l: Seq<u8>) -> bool {
    1 <= l.len() <= 63 && forall|i: int| 0 <= i < l.len() ==> label_byte_ok(#[trigger] l[i])
}

/// Length of a name in wire form: each label costs its bytes plus one
/// length byte.
pub open spec fn wire_len(n: Seq<Seq<u8>>) -> int
    decreases n.len(),
{
    if n.len() == 0 {
        0
    } else {
        n[0].len() + 1 + wire_len(n.drop_first())
    }
}

/// A well-formed canonical name: well-formed labels and a bounded total
/// wire length.  The root is the empty label sequence.
pub open spec fn wf_name(n: Seq<Seq<u8>>) -> bool {
    (forall|i: int| 0 <= i < n.len() ==> wf_label(#[trigger] n[i])) && wire_len(n) <= 255
}

/// `a` names an ancestor-or-equal domain of `b`: the labels of `a` are the
/// trailing labels of `b`.
pub open spec fn is_suffix(a: Seq<Seq<u8>>, b: Seq<Seq<u8>>) -> bool {
    a.len() <= b.len() && forall|i: int| 0 <= i < a.len() ==> #[trigger] a[i] == b[b.len() - a.len() + i]
}

/// The pieces of `t` between dots, in order, empty pieces kept.
pub open spec fn split_dots(t: Seq<u8>) -> Seq<Seq<u8>>
    decreases t.len(),
{
    if t.len() == 0 {
        seq![Seq::<u8>::empty()]
    } else if t[0] == DOT_BYTE {
        seq![Seq::<u8>::empty()] + split_dots(t.drop_first())
    } else {
        let rest = split_dots(t.drop_first());
        seq![seq![t[0]] + rest[0]] + rest.drop_first()
    }
}

/// The candidate labels of `t`: the case-normalized pieces between dots,
/// with the empty piece of a single trailing dot removed.
pub open spec fn name_pieces(t: Seq<u8>) -> Seq<Seq<u8>> {
    let ps = split_dots(lower_all(t));
    if t.len() > 0 && t.last() == DOT_BYTE {
        ps.drop_last()
    } else {
        ps
    }
}

/// What parsing a piece of text yields: the root name for a single dot,
/// otherwise the case-normalized labels between dots when every label is
/// well formed and the whole name fits in wire form, and nothing otherwise.
pub open spec fn spec_parse(t: Seq<u8>) -> Option<Seq<Seq<u8>>> {
    if t == seq![DOT_BYTE] {
        Some(Seq::<Seq<u8>>::empty())
    } else {
        let ps = name_pieces(t);
        if ps.len() >= 1 && (forall|i: int| 0 <= i < ps.len() ==> wf_label(#[trigger] ps[i]))
            && wire_len(ps) <= 255 {
            Some(ps)
        } else {
            None
        }
    }
}

/// The canonical label `administrator`, prepended to an apex to form the
/// zone's administrative contact name.
pub open spec fn admin_label() -> Seq<u8> {
    seq![97u8, 100u8, 109u8, 105u8, 110u8, 105u8, 115u8, 116u8, 114u8, 97u8, 116u8, 111u8, 114u8]
}

/// The labels of a name in presentation form, each followed by a dot,
/// so that every rendered name is fully qualified.
pub open spec fn labels_text(n: Seq<Seq<u8>>) -> Seq<u8>
    decreases n.len(),
{
    if n.len() == 0 {
        Seq::<u8>::empty()
    } else {
        n[0] + seq![DOT_BYTE] + labels_text(n.drop_first())
    }
}

/// The presentation text of a name: a single dot for the root, otherwise
/// the labels each followed by a dot.
pub open spec fn text_of(n: Seq<Seq<u8>>) -> Seq<u8> {
    if n.len() == 0 {
        seq![DOT_BYTE]
    } else {
        labels_text(n)
    }
}

/// Appending one label appends its bytes and a dot to the rendering.
pub proof fn lemma_labels_text_push(n: Seq<Seq<u8>>, l: Seq<u8>)
    ensures
        labels_text(n.push(l)) == labels_text(n) + l + seq![DOT_BYTE],
    decreases n.len(),
{
    if n.len() == 0 {
        assert(n.push(l).drop_first() =~= Seq::<Seq<u8>>::empty());
        assert(labels_text(Seq::<Seq<u8>>::empty()) == Seq::<u8>::empty());
        assert(labels_text(n.push(l)) =~= labels_text(n) + l + seq![DOT_BYTE]);
    } else {
        lemma_labels_text_push(n.drop_first(), l);
        assert(n.push(l).drop_first() =~= n.drop_first().push(l));
        assert(n.push(l)[0] == n[0]);
        assert(labels_text(n.push(l)) =~= labels_text(n) + l + seq![DOT_BYTE]);
    }
}

/// The views of a sequence of owned labels.
pub open spec fn views_of(vs: Seq<Vec<u8>>) -> Seq<Seq<u8>> {
    Seq::new(vs.len(), |i: int| vs[i]@)
}

pub proof fn lemma_split_dots_nonempty(t: Seq<u8>)
    ensures
        split_dots(t).len() >= 1,
    decreases t.len(),
{
    if t.len() == 0 {
    } else if t[0] == DOT_BYTE {
        lemma_split_dots_nonempty(t.drop_first());
    } else {
        lemma_split_dots_nonempty(t.drop_first());
    }
}

/// Appending one byte extends the split: a dot opens a new empty piece,
/// any other byte extends the last piece.
pub proof fn lemma_split_dots_push(t: Seq<u8>, b: u8)
    ensures
        b == DOT_BYTE ==> split_dots(t.push(b)) == split_dots(t).push(Seq::<u8>::empty()),
        b != DOT_BYTE ==> split_dots(t.push(b)) == split_dots(t).update(
            split_dots(t).len() - 1,
            split_dots(t).last().push(b),
        ),
    decreases t.len(),
{
    lemma_split_dots_nonempty(t);
    if t.len() == 0 {
        assert(t.push(b).drop_first() =~= Seq::<u8>::empty());
        assert(t =~= Seq::<u8>::empty());
        assert(split_dots(Seq::<u8>::empty()) == seq![Seq::<u8>::empty()]);
        if b == DOT_BYTE {
            assert(split_dots(t.push(b)) =~= split_dots(t).push(Seq::<u8>::empty()));
        } else {
            assert(seq![b] + Seq::<u8>::empty() =~= seq![b]);
            assert(seq![Seq::<u8>::empty()].drop_first() =~= Seq::<Seq<u8>>::empty());
            assert(split_dots(t.push(b))[0] == seq![b] + Seq::<u8>::empty());
            assert(split_dots(t.push(b)) =~= split_dots(t).update(0, seq![b]));
        }
    } else {
        let td = t.drop_first();
        lemma_split_dots_nonempty(td);
        lemma_split_dots_push(td, b);
        assert(t.push(b).drop_first() =~= td.push(b));
        let s = split_dots(td);
        if t[0] == DOT_BYTE {
            if b == DOT_BYTE {
                assert(split_dots(t.push(b)) =~= split_dots(t).push(Seq::<u8>::empty()));
            } else {
                assert(split_dots(t.push(b)) =~= split_dots(t).update(
                    split_dots(t).len() - 1,
                    split_dots(t).last().push(b),
                ));
            }
        } else {
            if b == DOT_BYTE {
                let sp = s.push(Seq::<u8>::empty());
                assert(sp[0] == s[0]);
                assert(sp.drop_first() =~= s.drop_first().push(Seq::<u8>::empty()));
                assert(split_dots(t.push(b)) =~= split_dots(t).push(Seq::<u8>::empty()));
            } else {
                let su = s.update(s.len() - 1, s.last().push(b));
                if s.len() == 1 {
                    assert(su[0] == s[0].push(b));
                    assert(su.drop_first() =~= s.drop_first());
                    assert((seq![t[0]] + s[0].push(b)) =~= (seq![t[0]] + s[0]).push(b));
                    assert(split_dots(t.push(b)) =~= split_dots(t).update(
                        split_dots(t).len() - 1,
                        split_dots(t).last().push(b),
                    ));
                } else {
                    assert(su[0] == s[0]);
                    assert(su.drop_first() =~= s.drop_first().update(s.len() - 2, s.last().push(b)));
                    assert(split_dots(t.push(b)) =~= split_dots(t).update(
                        split_dots(t).len() - 1,
                        split_dots(t).last().push(b),
                    ));
                }
            }
        }
    }
}

/// Appending a label adds its bytes plus one to the wire length.
pub proof fn lemma_wire_len_push(n: Seq<Seq<u8>>, l: Seq<u8>)
    ensures
        wire_len(n.push(l)) == wire_len(n) + l.len() + 1,
    decreases n.len(),
{
    if n.len() == 0 {
        assert(n.push(l).drop_first() =~= Seq::<Seq<u8>>::empty());
        assert(wire_len(Seq::<Seq<u8>>::empty()) == 0);
    } else {
        lemma_wire_len_push(n.drop_first(), l);
        assert(n.push(l).drop_first() =~= n.drop_first().push(l));
        assert(n.push(l)[0] == n[0]);
        assert(wire_len(n) == n[0].len() + 1 + wire_len(n.drop_first()));
    }
}

/// A prefix of a name is no longer in wire form than the whole name.
pub proof fn lemma_wire_len_take_le(n: Seq<Seq<u8>>, m: int)
    requires
        0 <= m <= n.len(),
    ensures
        wire_len(n.take(m)) <= wire_len(n),
    decreases n.len() - m,
{
    if m == n.len() {
        assert(n.take(m) =~= n);
    } else {
        assert(n.take(m + 1) =~= n.take(m).push(n[m]));
        lemma_wire_len_push(n.take(m), n[m]);
        lemma_wire_len_take_le(n, m + 1);
    }
}

/// An input name fails DNS label syntax: an empty or over-long label, a
/// byte outside the allowed set, or a total length over the wire limit.
#[derive(Clone, Copy, Debug, PartialEq, Eq, Structural)]
pub struct NameFormatError;

/// A canonical DNS name: a sequence of lower-case labels, most specific
/// first, the root being the empty sequence.  Immutable once constructed.
#[derive(Debug, PartialEq, Eq, Hash)]
pub struct DNSName {
    labels: Vec<Vec<u8>>,
}

impl View for DNSName {
    type V = Seq<Seq<u8>>;

    closed spec fn view(&self) -> Seq<Seq<u8>> {
        views_of(self.labels@)
    }
}

impl DNSName {
    #[verifier::type_invariant]
    spec fn type_wf(self) -> bool {
        wf_name(self@)
    }

    /// The root name: no labels at all.
    pub fn root() -> (r: DNSName)
        ensures
            r@ == Seq::<Seq<u8>>::empty(),
    {
        let r = DNSName { labels: Vec::new() };
        proof {
            assert(r@ =~= Seq::<Seq<u8>>::empty());
        }
        r
    }

    /// How many labels the name has.
    pub fn label_count(&self) -> (r: usize)
        ensures
            r == self@.len(),
    {
        self.labels.len()
    }

    /// The name's length in wire form.
    pub fn wire_size(&self) -> (r: usize)
        ensures
            r == wire_len(self@),
            r <= 255,
    {
        proof {
            use_type_invariant(self);
        }
        let mut total: usize = 0;
        let mut i: usize = 0;
        while i < self.labels.len()
            invariant
                0 <= i <= self.labels@.len(),
                total == wire_len(self@.take(i as int)),
                total <= 255,
                wf_name(self@),
                self@.len() == self.labels@.len(),
            decreases self.labels@.len() - i,
        {
            proof {
                assert(self@.take(i + 1) =~= self@.take(i as int).push(self@[i as int]));
                lemma_wire_len_push(self@.take(i as int), self@[i as int]);
                lemma_wire_len_take_le(self@, i + 1);
                assert(wf_label(self@[i as int]));
            }
            total = total + self.labels[i].len() + 1;
            i = i + 1;
        }
        proof {
            assert(self@.take(self@.len() as int) =~= self@);
        }
        total
    }

    /// A copy of this name.
    pub fn duplicate(&self) -> (r: DNSName)
        ensures
            r@ == self@,
    {
        proof {
            use_type_invariant(self);
        }
        let mut labels: Vec<Vec<u8>> = Vec::new();
        let mut i: usize = 0;
        while i < self.labels.len()
            invariant
                0 <= i <= self.labels@.len(),
                labels@.len() == i,
                forall|k: int| 0 <= k < i ==> #[trigger] labels@[k]@ == self@[k],
                wf_name(self@),
                self@.len() == self.labels@.len(),
            decreases self.labels@.len() - i,
        {
            let l = copy_label(&self.labels[i]);
            labels.push(l);
            proof {
                assert(self@[i as int] == self.labels@[i as int]@);
            }
            i = i + 1;
        }
        proof {
            let lv = views_of(labels@);
            assert(forall|k: int| 0 <= k < lv.len() ==> #[trigger] lv[k] == labels@[k]@);
            assert(lv =~= self@);
        }
        let r = DNSName { labels };
        r
    }

    /// Does `self` name an ancestor-or-equal domain of `other`?
    pub fn suffix_of(&self, other: &DNSName) -> (r: bool)
        ensures
            r == is_suffix(self@, other@),
    {
        let n = self.labels.len();
        let m = other.labels.len();
        if n > m {
            return false;
        }
        let mut i: usize = 0;
        while i < n
            invariant
                0 <= i <= n <= m,
                n == self@.len(),
                m == other@.len(),
                forall|k: int| 0 <= k < i ==> #[trigger] self@[k] == other@[m - n + k],
            decreases n - i,
        {
            if !label_eq(&self.labels[i], &other.labels[m - n + i]) {
                proof {
                    assert(self@[i as int] != other@[m - n + i as int]);
                }
                return false;
            }
            i = i + 1;
        }
        true
    }

    /// Are two names the same sequence of labels?
    pub fn eq_name(&self, other: &DNSName) -> (r: bool)
        ensures
            r == (self@ == other@),
    {
        if self.labels.len() != other.labels.len() {
            proof {
                assert(self@.len() != other@.len());
            }
            return false;
        }
        let mut i: usize = 0;
        while i < self.labels.len()
            invariant
                0 <= i <= self.labels@.len(),
                self@.len() == self.labels@.len(),
                other@.len() == self.labels@.len(),
                forall|k: int| 0 <= k < i ==> #[trigger] self@[k] == other@[k],
            decreases self.labels@.len() - i,
        {
            if !label_eq(&self.labels[i], &other.labels[i]) {
                proof {
                    assert(self@[i as int] != other@[i as int]);
                }
                return false;
            }
            i = i + 1;
        }
        proof {
            assert(self@ =~= other@);
        }
        true
    }

    /// The administrative contact name `administrator.<self>`.
    pub fn admin_contact(&self) -> (r: DNSName)
        requires
            wire_len(self@) + 14 <= 255,
        ensures
            r@ == seq![admin_label()] + self@,
    {
        proof {
            use_type_invariant(self);
        }
        let mut admin: Vec<u8> = Vec::new();
        admin.push(97);
        admin.push(100);
        admin.push(109);
        admin.push(105);
        admin.push(110);
        admin.push(105);
        admin.push(115);
        admin.push(116);
        admin.push(114);
        admin.push(97);
        admin.push(116);
        admin.push(111);
        admin.push(114);
        proof {
            assert(admin@ =~= admin_label());
        }
        let mut labels: Vec<Vec<u8>> = Vec::new();
        labels.push(admin);
        let mut i: usize = 0;
        while i < self.labels.len()
            invariant
                0 <= i <= self.labels@.len(),
                labels@.len() == i + 1,
                labels@[0]@ == admin_label(),
                forall|k: int| 0 <= k < i ==> #[trigger] labels@[k + 1]@ == self@[k],
                wf_name(self@),
                self@.len() == self.labels@.len(),
            decreases self.labels@.len() - i,
        {
            let l = copy_label(&self.labels[i]);
            labels.push(l);
            proof {
                assert(self@[i as int] == self.labels@[i as int]@);
            }
            i = i + 1;
        }
        proof {
            let lv = views_of(labels@);
            assert(forall|k: int| 0 <= k < lv.len() ==> #[trigger] lv[k] == labels@[k]@);
            assert forall|k: int| 0 <= k < lv.len() implies lv[k] == (seq![admin_label()]
                + self@)[k] by {
                if k >= 1 {
                    assert(labels@[(k - 1) + 1]@ == self@[k - 1]);
                }
            }
            assert(lv =~= seq![admin_label()] + self@);
            assert(lv.drop_first() =~= self@);
            assert(wf_label(admin_label()));
            assert(wire_len(lv) == lv[0].len() + 1 + wire_len(lv.drop_first()));
            assert(wire_len(lv) == 14 + wire_len(self@));
            assert(forall|k: int| 0 <= k < lv.len() ==> wf_label(#[trigger] lv[k]));
        }
        let r = DNSName { labels };
        r
    }

    /// The name in presentation form: each label followed by a dot, the
    /// root as a single dot.
    pub fn to_text(&self) -> (r: Vec<u8>)
        ensures
            r@ == text_of(self@),
    {
        proof {
            use_type_invariant(self);
        }
        let mut r: Vec<u8> = Vec::new();
        if self.labels.len() == 0 {
            r.push(DOT_BYTE);
            proof {
                assert(r@ =~= seq![DOT_BYTE]);
            }
            return r;
        }
        let mut i: usize = 0;
        proof {
            assert(self@.take(0) =~= Seq::<Seq<u8>>::empty());
            assert(r@ =~= labels_text(self@.take(0)));
        }
        while i < self.labels.len()
            invariant
                0 <= i <= self.labels@.len(),
                self@.len() == self.labels@.len(),
                r@ == labels_text(self@.take(i as int)),
            decreases self.labels@.len() - i,
        {
            let ghost before = r@;
            let l = &self.labels[i];
            let mut k: usize = 0;
            while k < l.len()
                invariant
                    0 <= k <= l@.len(),
                    r@ == before + l@.take(k as int),
                decreases l@.len() - k,
            {
                r.push(l[k]);
                proof {
                    assert(l@.take(k + 1) =~= l@.take(k as int).push(l@[k as int]));
                    assert(r@ =~= before + l@.take(k + 1));
                }
                k = k + 1;
            }
            r.push(DOT_BYTE);
            proof {
                assert(l@.take(l@.len() as int) =~= l@);
                lemma_labels_text_push(self@.take(i as int), self@[i as int]);
                assert(self@.take(i + 1) =~= self@.take(i as int).push(self@[i as int]));
                assert(self@[i as int] == self.labels@[i as int]@);
                assert(r@ =~= labels_text(self@.take(i as int)) + l@ + seq![DOT_BYTE]);
            }
            i = i + 1;
        }
        proof {
            assert(self@.take(self@.len() as int) =~= self@);
        }
        r
    }

    /// Parse presentation text into a canonical name.  A single dot is the
    /// root; otherwise the text is split on dots (one trailing dot
    /// allowed), case-normalized, and every label must be one to
    /// sixty-three bytes of letters, digits, `-` or `_`, the whole name
    /// fitting in wire form.
    pub fn parse(text: &[u8]) -> (r: Result<DNSName, NameFormatError>)
        ensures
            match r {
                Ok(n) => spec_parse(text@) == Some(n@),
                Err(_) => spec_parse(text@) is None,
            },
    {
        // The root name is written as a single dot.
        if text.len() == 1 && *slice_index_get(text, 0) == DOT_BYTE {
            proof {
                assert(text@ =~= seq![DOT_BYTE]);
            }
            let n = DNSName { labels: Vec::new() };
            proof {
                assert(n@ =~= Seq::<Seq<u8>>::empty());
            }
            return Ok(n);
        }
        proof {
            assert(!(text@ =~= seq![DOT_BYTE]));
            assert(text@ != seq![DOT_BYTE]);
        }

        // Split into case-normalized pieces.
        let mut pieces: Vec<Vec<u8>> = Vec::new();
        let mut cur: Vec<u8> = Vec::new();
        let mut i: usize = 0;
        proof {
            assert(lower_all(text@.take(0)) =~= Seq::<u8>::empty());
            assert(split_dots(Seq::<u8>::empty()) == seq![Seq::<u8>::empty()]);
        }
        while i < text.len()
            invariant
                0 <= i <= text@.len(),
                pieces@.len() + 1 == split_dots(lower_all(text@.take(i as int))).len(),
                forall|k: int| 0 <= k < pieces@.len() ==> #[trigger] pieces@[k]@ == split_dots(
                    lower_all(text@.take(i as int)),
                )[k],
                cur@ == split_dots(lower_all(text@.take(i as int))).last(),
            decreases text@.len() - i,
        {
            let ghost s = split_dots(lower_all(text@.take(i as int)));
            let b = *slice_index_get(text, i);
            let lb = if 65 <= b && b <= 90 {
                b + 32
            } else {
                b
            };
            proof {
                assert(lb == to_lower(text@[i as int]));
                assert(lower_all(text@.take(i + 1)) =~= lower_all(text@.take(i as int)).push(
                    to_lower(text@[i as int]),
                ));
                lemma_split_dots_push(lower_all(text@.take(i as int)), lb);
                lemma_split_dots_nonempty(lower_all(text@.take(i as int)));
            }
            if lb == DOT_BYTE {
                pieces.push(cur);
                cur = Vec::new();
                proof {
                    assert(split_dots(lower_all(text@.take(i + 1))) == s.push(Seq::<u8>::empty()));
                }
            } else {
                cur.push(lb);
                proof {
                    assert(split_dots(lower_all(text@.take(i + 1))) == s.update(
                        s.len() - 1,
                        s.last().push(lb),
                    ));
                }
            }
            i = i + 1;
        }
        pieces.push(cur);
        let ghost full = split_dots(lower_all(text@));
        proof {
            assert(text@.take(text@.len() as int) =~= text@);
            assert(pieces@.len() == full.len());
            assert(forall|k: int| 0 <= k < pieces@.len() ==> #[trigger] pieces@[k]@ == full[k]);
        }

        // A single trailing dot only marks the name as fully qualified.
        let mut ps = pieces;
        if text.len() > 0 && *slice_index_get(text, text.len() - 1) == DOT_BYTE {
            proof {
                lemma_split_dots_nonempty(lower_all(text@));
            }
            ps.pop();
        }
        let ghost pv = name_pieces(text@);
        proof {
            assert(ps@.len() == pv.len());
            assert(forall|k: int| 0 <= k < ps@.len() ==> #[trigger] ps@[k]@ == pv[k]);
        }

        if ps.len() == 0 {
            return Err(NameFormatError);
        }

        // Validate every label and the total wire length.
        let mut total: usize = 0;
        let mut j: usize = 0;
        proof {
            assert(pv.take(0) =~= Seq::<Seq<u8>>::empty());
        }
        while j < ps.len()
            invariant
                0 <= j <= ps@.len(),
                text@ != seq![DOT_BYTE],
                pv == name_pieces(text@),
                pv.len() == ps@.len(),
                forall|k: int| 0 <= k < ps@.len() ==> #[trigger] ps@[k]@ == pv[k],
                forall|k: int| 0 <= k < j ==> wf_label(#[trigger] pv[k]),
                total == wire_len(pv.take(j as int)),
                total <= 255,
            decreases ps@.len() - j,
        {
            let llen = ps[j].len();
            if llen == 0 || llen > 63 {
                proof {
                    assert(!wf_label(name_pieces(text@)[j as int]));
                    assert(!(forall|m: int|
                        0 <= m < name_pieces(text@).len() ==> wf_label(
                            #[trigger] name_pieces(text@)[m],
                        )));
                }
                return Err(NameFormatError);
            }
            let mut k: usize = 0;
            while k < llen
                invariant
                    0 <= k <= llen,
                    j < ps@.len(),
                    text@ != seq![DOT_BYTE],
                    pv == name_pieces(text@),
                    pv.len() == ps@.len(),
                    ps@[j as int]@ == pv[j as int],
                    llen == pv[j as int].len(),
                    forall|m: int| 0 <= m < k ==> label_byte_ok(#[trigger] pv[j as int][m]),
                decreases llen - k,
            {
                let b = ps[j][k];
                let ok = (97 <= b && b <= 122) || (48 <= b && b <= 57) || b == 45 || b == 95;
                if !ok {
                    proof {
                        assert(!label_byte_ok(pv[j as int][k as int]));
                        assert(!wf_label(name_pieces(text@)[j as int]));
                        assert(!(forall|m: int|
                            0 <= m < name_pieces(text@).len() ==> wf_label(
                                #[trigger] name_pieces(text@)[m],
                            )));
                    }
                    return Err(NameFormatError);
                }
                k = k + 1;
            }
            proof {
                assert(wf_label(pv[j as int]));
                assert(pv.take(j + 1) =~= pv.take(j as int).push(pv[j as int]));
                lemma_wire_len_push(pv.take(j as int), pv[j as int]);
            }
            if 255 - total < llen + 1 {
                proof {
                    lemma_wire_len_take_le(pv, j + 1);
                }
                return Err(NameFormatError);
            }
            total = total + llen + 1;
            j = j + 1;
        }
        proof {
            assert(pv.take(pv.len() as int) =~= pv);
        }
        proof {
            let lv = views_of(ps@);
            assert(forall|k: int| 0 <= k < lv.len() ==> #[trigger] lv[k] == ps@[k]@);
            assert(lv =~= pv);
        }
        let n = DNSName { labels: ps };
        Ok(n)
    }
}

/// Are two owned labels the same bytes?
fn label_eq(a: &Vec<u8>, b: &Vec<u8>) -> (r: bool)
    ensures
        r == (a@ == b@),
{
    if a.len() != b.len() {
        proof {
            assert(a@.len() != b@.len());
        }
        return false;
    }
    let mut i: usize = 0;
    while i < a.len()
        invariant
            0 <= i <= a@.len(),
            a@.len() == b@.len(),
            forall|k: int| 0 <= k < i ==> a@[k] == b@[k],
        decreases a@.len() - i,
    {
        if a[i] != b[i] {
            return false;
        }
        i = i + 1;
    }
    proof {
        assert(a@ =~= b@);
    }
    true
}

/// A copy of one owned label.
fn copy_label(a: &Vec<u8>) -> (r: Vec<u8>)
    ensures
        r@ == a@,
{
    let mut r: Vec<u8> = Vec::new();
    let mut i: usize = 0;
    while i < a.len()
        invariant
            0 <= i <= a@.len(),
            r@ == a@.take(i as int),
        decreases a@.len() - i,
    {
        r.push(a[i]);
        proof {
            assert(a@.take(i + 1) =~= a@.take(i as int).push(a@[i as int]));
        }
        i = i + 1;
    }
    proof {
        assert(a@.take(a@.len() as int) =~= a@);
    }
    r
}

} // verus!
