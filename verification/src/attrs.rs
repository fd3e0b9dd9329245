//! Named metadata extracted from attribute lines: title, subtitle, axis
//! labels, a declared type, and a verbatim archive of everything that did not
//! match a recognized key.

use vstd::prelude::*;

use crate::text::{copy_chars, lemma_chars_deep_view, sub_chars, tokenize, tokens_of};

verus! {

broadcast use lemma_chars_deep_view;

/// The one unrecoverable failure of the parser: an attribute line opened a
/// quoted value and never closed it.
#[derive(Debug, Clone, Copy, PartialEq, Eq, Structural)]
pub enum XvgError {
    MissingClosingQuote,
    UnknownStyle,
}

/// An axis of the plot, carrying its label.
#[derive(Debug, Clone)]
pub struct Axis {
    pub label: Vec<char>,
}

impl Axis {
    /// Wrap a label as an axis.
    pub fn new(label: Vec<char>) -> (a: Axis)
        ensures
            a.label@ == label@,
    {
        Axis { label }
    }
}

/// The attributes of a dataset, as mathematical values.
#[verifier::ext_equal]
pub ghost struct AttrsModel {
    pub title: Option<Seq<char>>,
    pub subtitle: Option<Seq<char>>,
    pub xaxis: Option<Seq<char>>,
    pub yaxis: Option<Seq<char>>,
    pub declared_type: Option<Seq<char>>,
    pub misc: Seq<Seq<char>>,
}

/// The attributes before any attribute line has been read.
pub open spec fn empty_attrs() -> AttrsModel {
    AttrsModel {
        title: None,
        subtitle: None,
        xaxis: None,
        yaxis: None,
        declared_type: None,
        misc: Seq::empty(),
    }
}

/// Named metadata of a dataset. Each recognized key holds the value of its
/// last occurrence; `misc` archives, in order, every attribute line that did
/// not match a recognized key.
#[derive(Debug, Clone)]
pub struct Attributes {
    pub title: Option<Vec<char>>,
    pub subtitle: Option<Vec<char>>,
    pub xaxis: Option<Axis>,
    pub yaxis: Option<Axis>,
    pub declared_type: Option<Vec<char>>,
    pub misc: Vec<Vec<char>>,
}

impl Attributes {
    /// The attributes as mathematical values.
    pub open spec fn model(&self) -> AttrsModel {
        AttrsModel {
            title: match self.title {
                Some(t) => Some(t@),
                None => None,
            },
            subtitle: match self.subtitle {
                Some(t) => Some(t@),
                None => None,
            },
            xaxis: match self.xaxis {
                Some(a) => Some(a.label@),
                None => None,
            },
            yaxis: match self.yaxis {
                Some(a) => Some(a.label@),
                None => None,
            },
            declared_type: match self.declared_type {
                Some(t) => Some(t@),
                None => None,
            },
            misc: self.misc.deep_view(),
        }
    }

    /// Attributes with no key set.
    pub fn new() -> (a: Attributes)
        ensures
            a.model() == empty_attrs(),
    {
        let a = Attributes {
            title: None,
            subtitle: None,
            xaxis: None,
            yaxis: None,
            declared_type: None,
            misc: Vec::new(),
        };
        proof {
            assert(a.model() =~~= empty_attrs());
        }
        a
    }
}

pub open spec fn kw_xaxis() -> Seq<char> {
    seq!['x', 'a', 'x', 'i', 's']
}

pub open spec fn kw_yaxis() -> Seq<char> {
    seq!['y', 'a', 'x', 'i', 's']
}

pub open spec fn kw_label() -> Seq<char> {
    seq!['l', 'a', 'b', 'e', 'l']
}

pub open spec fn kw_title() -> Seq<char> {
    seq!['t', 'i', 't', 'l', 'e']
}

pub open spec fn kw_subtitle() -> Seq<char> {
    seq!['s', 'u', 'b', 't', 'i', 't', 'l', 'e']
}

pub open spec fn kw_type() -> Seq<char> {
    seq!['T', 'Y', 'P', 'E']
}

fn is_kw_xaxis(t: &Vec<char>) -> (r: bool)
    ensures
        r == (t@ == kw_xaxis()),
{
    let r = t.len() == 5 && t[0] == 'x' && t[1] == 'a' && t[2] == 'x' && t[3] == 'i' && t[4] == 's';
    proof {
        if r {
            assert(t@ =~= kw_xaxis());
        }
    }
    r
}

fn is_kw_yaxis(t: &Vec<char>) -> (r: bool)
    ensures
        r == (t@ == kw_yaxis()),
{
    let r = t.len() == 5 && t[0] == 'y' && t[1] == 'a' && t[2] == 'x' && t[3] == 'i' && t[4] == 's';
    proof {
        if r {
            assert(t@ =~= kw_yaxis());
        }
    }
    r
}

fn is_kw_label(t: &Vec<char>) -> (r: bool)
    ensures
        r == (t@ == kw_label()),
{
    let r = t.len() == 5 && t[0] == 'l' && t[1] == 'a' && t[2] == 'b' && t[3] == 'e' && t[4] == 'l';
    proof {
        if r {
            assert(t@ =~= kw_label());
        }
    }
    r
}

fn is_kw_title(t: &Vec<char>) -> (r: bool)
    ensures
        r == (t@ == kw_title()),
{
    let r = t.len() == 5 && t[0] == 't' && t[1] == 'i' && t[2] == 't' && t[3] == 'l' && t[4] == 'e';
    proof {
        if r {
            assert(t@ =~= kw_title());
        }
    }
    r
}

fn is_kw_subtitle(t: &Vec<char>) -> (r: bool)
    ensures
        r == (t@ == kw_subtitle()),
{
    let r = t.len() == 8 && t[0] == 's' && t[1] == 'u' && t[2] == 'b' && t[3] == 't' && t[4] == 'i'
        && t[5] == 't' && t[6] == 'l' && t[7] == 'e';
    proof {
        if r {
            assert(t@ =~= kw_subtitle());
        }
    }
    r
}

fn is_kw_type(t: &Vec<char>) -> (r: bool)
    ensures
        r == (t@ == kw_type()),
{
    let r = t.len() == 4 && t[0] == 'T' && t[1] == 'Y' && t[2] == 'P' && t[3] == 'E';
    proof {
        if r {
            assert(t@ =~= kw_type());
        }
    }
    r
}

/// The quoted-value reading of an attribute line. A line without a double
/// quote changes nothing. A line whose first quote is never closed (its last
/// character is not a second quote) is structurally corrupt: `None`. Else the
/// text between the first quote and the final quote is the value, and the
/// whitespace-separated tokens before the first quote are the key: `xaxis
/// label` and `yaxis label` set the axis labels, `title` and `subtitle`
/// (first token alone decides) set the titles, and any other key archives the
/// whole line in `misc`.
pub open spec fn quoted_step(m: AttrsModel, line: Seq<char>) -> Option<AttrsModel> {
    match line.index_of_first('"') {
        None => Some(m),
        Some(q) => {
            let rest = line.skip(q + 1);
            if rest.len() == 0 || rest.last() != '"' {
                None
            } else {
                let value = rest.drop_last();
                let keys = tokens_of(line.take(q));
                Some(
                    if keys.len() > 0 && keys[0] == kw_xaxis() {
                        if keys.len() > 1 && keys[1] == kw_label() {
                            AttrsModel { xaxis: Some(value), ..m }
                        } else {
                            m
                        }
                    } else if keys.len() > 0 && keys[0] == kw_yaxis() {
                        if keys.len() > 1 && keys[1] == kw_label() {
                            AttrsModel { yaxis: Some(value), ..m }
                        } else {
                            m
                        }
                    } else if keys.len() > 0 && keys[0] == kw_title() {
                        AttrsModel { title: Some(value), ..m }
                    } else if keys.len() > 0 && keys[0] == kw_subtitle() {
                        AttrsModel { subtitle: Some(value), ..m }
                    } else {
                        AttrsModel { misc: m.misc.push(line), ..m }
                    },
                )
            }
        },
    }
}

/// The bare-token reading of an attribute line, applied after the quoted one.
/// The last whitespace-separated token is the value and the tokens before it
/// are the key: the key `TYPE` alone sets the declared type; any other shape
/// (including a line of fewer than two tokens) archives the whole line in
/// `misc`.
pub open spec fn type_step(m: AttrsModel, line: Seq<char>) -> AttrsModel {
    let ts = tokens_of(line);
    if ts.len() == 0 {
        AttrsModel { misc: m.misc.push(line), ..m }
    } else {
        let keys = ts.drop_last();
        if keys.len() == 1 && keys[0] == kw_type() {
            AttrsModel { declared_type: Some(ts.last()), ..m }
        } else {
            AttrsModel { misc: m.misc.push(line), ..m }
        }
    }
}

/// One attribute line (the text after the marker, trimmed), applied to the
/// attributes gathered so far: the quoted-value reading, then — always, even
/// for a line the first reading recognized — the bare-token reading. `None`
/// when the line is structurally corrupt.
pub open spec fn apply_attr_line(m: AttrsModel, line: Seq<char>) -> Option<AttrsModel> {
    match quoted_step(m, line) {
        None => None,
        Some(m1) => Some(type_step(m1, line)),
    }
}

/// The index of the first double quote of `line`, if any.
fn find_quote(line: &Vec<char>) -> (r: Option<usize>)
    ensures
        match r {
            Some(i) => line@.index_of_first('"') == Some(i as int),
            None => line@.index_of_first('"') is None,
        },
{
    proof {
        line@.index_of_first_ensures('"');
    }
    let mut i: usize = 0;
    while i < line.len()
        invariant
            i <= line@.len(),
            forall|j: int| 0 <= j < i ==> line@[j] != '"',
        decreases line@.len() - i,
    {
        if line[i] == '"' {
            proof {
                line@.index_of_first_ensures('"');
            }
            return Some(i);
        }
        i += 1;
    }
    proof {
        line@.index_of_first_ensures('"');
    }
    None
}

/// Apply one attribute line — the text after the attribute marker, already
/// trimmed — to `attrs`, as [`apply_attr_line`] describes. On a structurally
/// corrupt line nothing changes and the error is returned.
pub fn apply_attribute_line(attrs: &mut Attributes, line: &Vec<char>) -> (r: Result<(), XvgError>)
    ensures
        match r {
            Ok(_) => apply_attr_line(old(attrs).model(), line@) == Some(final(attrs).model()),
            Err(e) => {
                &&& apply_attr_line(old(attrs).model(), line@) is None
                &&& e == XvgError::MissingClosingQuote
                &&& final(attrs).model() == old(attrs).model()
            },
        },
{
    let ghost m0 = attrs.model();
    // The quoted-value reading.
    match find_quote(line) {
        None => {
            assert(quoted_step(m0, line@) == Some(m0));
        },
        Some(q) => {
            proof {
                line@.index_of_first_ensures('"');
            }
            let n = line.len();
            assert(q < n);
            if q + 1 == n || line[n - 1] != '"' {
                proof {
                    let rest = line@.skip(q + 1);
                    if q + 1 < line@.len() {
                        assert(rest.len() > 0);
                        assert(rest.last() == line@[line@.len() - 1]);
                    } else {
                        assert(rest.len() == 0);
                    }
                }
                return Err(XvgError::MissingClosingQuote);
            }
            let value = sub_chars(line, q + 1, line.len() - 1);
            proof {
                let rest = line@.skip(q + 1);
                assert(rest.last() == line@.last());
                assert(rest.drop_last() =~= line@.subrange(q + 1, line@.len() - 1));
            }
            let key_part = sub_chars(line, 0, q);
            proof {
                assert(line@.subrange(0, q as int) =~= line@.take(q as int));
            }
            let keys = tokenize(&key_part);
            let ghost keys_s = tokens_of(line@.take(q as int));
            if keys.len() > 0 && is_kw_xaxis(&keys[0]) {
                assert(keys@[0]@ == keys_s[0]);
                if keys.len() > 1 && is_kw_label(&keys[1]) {
                    assert(keys@[1]@ == keys_s[1]);
                    attrs.xaxis = Some(Axis::new(value));
                }
            } else if keys.len() > 0 && is_kw_yaxis(&keys[0]) {
                assert(keys@[0]@ == keys_s[0]);
                if keys.len() > 1 && is_kw_label(&keys[1]) {
                    assert(keys@[1]@ == keys_s[1]);
                    attrs.yaxis = Some(Axis::new(value));
                }
            } else if keys.len() > 0 && is_kw_title(&keys[0]) {
                assert(keys@[0]@ == keys_s[0]);
                attrs.title = Some(value);
            } else if keys.len() > 0 && is_kw_subtitle(&keys[0]) {
                assert(keys@[0]@ == keys_s[0]);
                attrs.subtitle = Some(value);
            } else {
                proof {
                    if keys_s.len() > 0 {
                        assert(keys@[0]@ == keys_s[0]);
                    }
                }
                let ghost old_misc = attrs.misc.deep_view();
                attrs.misc.push(copy_chars(line));
                proof {
                    assert(attrs.misc.deep_view() =~~= old_misc.push(line@));
                }
            }
        },
    }
    let ghost m1 = quoted_step(m0, line@)->Some_0;
    assert(attrs.model() =~~= m1);
    // The bare-token reading.
    let ts = tokenize(line);
    let ghost ts_s = tokens_of(line@);
    if ts.len() == 0 {
        let ghost old_misc = attrs.misc.deep_view();
        attrs.misc.push(copy_chars(line));
        proof {
            assert(attrs.misc.deep_view() =~~= old_misc.push(line@));
        }
    } else if ts.len() == 2 && is_kw_type(&ts[0]) {
        assert(ts@[0]@ == ts_s[0]);
        assert(ts_s.drop_last().len() == 1 && ts_s.drop_last()[0] == kw_type());
        let v = copy_chars(&ts[1]);
        assert(v@ == ts_s.last());
        attrs.declared_type = Some(v);
    } else {
        proof {
            let keys = ts_s.drop_last();
            if keys.len() == 1 && keys[0] == kw_type() {
                assert(ts_s.len() == 2);
                assert(ts@[0]@ == ts_s[0]);
            }
        }
        let ghost old_misc = attrs.misc.deep_view();
        attrs.misc.push(copy_chars(line));
        proof {
            assert(attrs.misc.deep_view() =~~= old_misc.push(line@));
        }
    }
    assert(attrs.model() =~~= type_step(m1, line@));
    Ok(())
}

} // verus!
