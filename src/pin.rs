//! The item model of the feed, and the text that is stored and sent for it.
use vstd::prelude::*;
use vstd::string::*;

verus! {

/// One bookmark of the feed. The field names are those of the feed's JSON.
pub struct Pin {
    /// The bookmarked link.
    pub u: String,
    /// The title.
    pub d: String,
    /// An optional note; an empty note is shown as no note.
    pub n: Option<String>,
    /// The author.
    pub a: String,
    /// The tags, as the feed gives them (empty entries included).
    pub t: Vec<String>,
}

/// What a `Pin` holds, as sequences of characters.
pub struct PinView {
    pub url: Seq<char>,
    pub title: Seq<char>,
    pub note: Option<Seq<char>>,
    pub author: Seq<char>,
    pub tags: Seq<Seq<char>>,
}

pub open spec fn opt_chars(o: Option<String>) -> Option<Seq<char>> {
    match o {
        Some(s) => Some(s@),
        None => None,
    }
}

pub open spec fn strings_chars(v: Seq<String>) -> Seq<Seq<char>> {
    v.map_values(|s: String| s@)
}

impl View for Pin {
    type V = PinView;

    open spec fn view(&self) -> PinView {
        PinView {
            url: self.u@,
            title: self.d@,
            note: opt_chars(self.n),
            author: self.a@,
            tags: strings_chars(self.t@),
        }
    }
}

pub open spec fn comma_space() -> Seq<char> {
    seq![',', ' ']
}

pub open spec fn blank_line() -> Seq<char> {
    seq!['\n', '\n']
}

/// `parts` with `sep` between each two neighbours.
pub open spec fn join(parts: Seq<Seq<char>>, sep: Seq<char>) -> Seq<char>
    decreases parts.len(),
{
    if parts.len() == 0 {
        Seq::empty()
    } else if parts.len() == 1 {
        parts[0]
    } else {
        join(parts.drop_last(), sep) + sep + parts.last()
    }
}

/// The non-empty tags, in order, each behind a `#`.
pub open spec fn hashtag_list(tags: Seq<Seq<char>>) -> Seq<Seq<char>>
    decreases tags.len(),
{
    if tags.len() == 0 {
        Seq::empty()
    } else if tags.last().len() == 0 {
        hashtag_list(tags.drop_last())
    } else {
        hashtag_list(tags.drop_last()).push(seq!['#'] + tags.last())
    }
}

/// The tags column of a stored item: its hashtags joined by `", "`.
pub open spec fn stored_tags(tags: Seq<Seq<char>>) -> Seq<char> {
    join(hashtag_list(tags), comma_space())
}

/// The pieces of `s` between its commas (one piece when it has none).
pub open spec fn split_commas(s: Seq<char>) -> Seq<Seq<char>>
    decreases s.len(),
{
    if s.len() == 0 {
        seq![Seq::empty()]
    } else if s.last() == ',' {
        split_commas(s.drop_last()).push(Seq::empty())
    } else {
        let pre = split_commas(s.drop_last());
        pre.update(pre.len() - 1, pre.last().push(s.last()))
    }
}

/// The message for a pin before trimming: title, a blank line and the link,
/// then the note if there is a non-empty one, then the tags if there are any.
pub open spec fn message_text(p: PinView) -> Seq<char> {
    let note_part = match p.note {
        Some(n) => if n.len() > 0 {
            blank_line() + n
        } else {
            Seq::empty()
        },
        None => Seq::empty(),
    };
    let tags_part = if p.tags.len() > 0 {
        blank_line() + join(p.tags, comma_space())
    } else {
        Seq::empty()
    };
    p.title + blank_line() + p.url + note_part + tags_part
}

/// What `str::trim` returns on a text.
pub uninterp spec fn trimmed(s: Seq<char>) -> Seq<char>;

/// Relies on `str::trim`: the text without leading and trailing white space,
/// which depends on the characters alone.
#[verifier::external_body]
fn trim_text(s: &str) -> (r: String)
    ensures
        r@ == trimmed(s@),
{
    s.trim().to_string()
}

/// Joins `parts` with `", "` between each two neighbours.
pub fn join_comma_space(parts: &Vec<String>) -> (r: String)
    ensures
        r@ == join(strings_chars(parts@), comma_space()),
{
    let ghost pv = strings_chars(parts@);
    let mut r = String::new();
    let mut i: usize = 0;
    while i < parts.len()
        invariant
            i <= parts.len(),
            pv == strings_chars(parts@),
            r@ == join(pv.take(i as int), comma_space()),
        decreases parts.len() - i,
    {
        proof {
            reveal_strlit(", ");
            assert(pv.take(i + 1).drop_last() =~= pv.take(i as int));
        }
        if i > 0 {
            r.append(", ");
        }
        r.append(parts[i].as_str());
        i += 1;
    }
    proof {
        assert(pv.take(i as int) =~= pv);
    }
    r
}

/// The non-empty tags of `tags`, in order, each with a `#` in front.
pub fn hashtags(tags: &Vec<String>) -> (r: Vec<String>)
    ensures
        strings_chars(r@) == hashtag_list(strings_chars(tags@)),
{
    let ghost tv = strings_chars(tags@);
    let mut r: Vec<String> = Vec::new();
    let mut i: usize = 0;
    while i < tags.len()
        invariant
            i <= tags.len(),
            tv == strings_chars(tags@),
            strings_chars(r@) == hashtag_list(tv.take(i as int)),
        decreases tags.len() - i,
    {
        proof {
            assert(tv.take(i + 1).drop_last() =~= tv.take(i as int));
            assert(tv.take(i + 1).last() == tags@[i as int]@);
        }
        if !tags[i].as_str().is_empty() {
            let mut h = String::from_str("#");
            proof {
                reveal_strlit("#");
                assert("#"@ =~= seq!['#']);
            }
            h.append(tags[i].as_str());
            let ghost before = r@;
            r.push(h);
            proof {
                assert(strings_chars(r@) =~= strings_chars(before).push(h@));
            }
        }
        i += 1;
    }
    proof {
        assert(tv.take(i as int) =~= tv);
    }
    r
}

/// The tags column for `tags`: empty tags dropped, a `#` in front of each
/// other one, joined by `", "`.
pub fn tags_for_storage(tags: &Vec<String>) -> (r: String)
    ensures
        r@ == stored_tags(strings_chars(tags@)),
{
    let h = hashtags(tags);
    join_comma_space(&h)
}

/// Splits a stored tags column at its commas, as `str::split(',')` does.
pub fn split_tags(s: &str) -> (r: Vec<String>)
    ensures
        strings_chars(r@) == split_commas(s@),
{
    let n = s.unicode_len();
    let mut r: Vec<String> = Vec::new();
    let mut start: usize = 0;
    let mut i: usize = 0;
    proof {
        assert(s@.take(0) =~= Seq::<char>::empty());
        assert(strings_chars(r@).push(s@.subrange(0, 0)) =~= seq![Seq::<char>::empty()]);
    }
    while i < n
        invariant
            n == s@.len(),
            start <= i <= n,
            strings_chars(r@).push(s@.subrange(start as int, i as int)) == split_commas(
                s@.take(i as int),
            ),
        decreases n - i,
    {
        proof {
            assert(s@.take(i + 1).drop_last() =~= s@.take(i as int));
            assert(s@.take(i + 1).last() == s@[i as int]);
        }
        let c = s.get_char(i);
        let ghost rv = strings_chars(r@);
        if c == ',' {
            let piece = String::from_str(s.substring_char(start, i));
            r.push(piece);
            start = i + 1;
            proof {
                assert(strings_chars(r@) =~= rv.push(piece@));
                assert(s@.subrange(start as int, i + 1) =~= Seq::<char>::empty());
            }
        } else {
            proof {
                let old_piece = s@.subrange(start as int, i as int);
                assert(s@.subrange(start as int, i + 1) =~= old_piece.push(c));
                assert(rv.push(old_piece).update(rv.len() as int, old_piece.push(c)) =~= rv.push(
                    s@.subrange(start as int, i + 1),
                ));
            }
        }
        i += 1;
    }
    let piece = String::from_str(s.substring_char(start, n));
    let ghost rv = strings_chars(r@);
    r.push(piece);
    proof {
        assert(s@.take(n as int) =~= s@);
        assert(strings_chars(r@) =~= rv.push(piece@));
    }
    r
}

/// The message for `pin` before trimming.
pub fn message_body(pin: &Pin) -> (r: String)
    ensures
        r@ == message_text(pin@),
{
    proof {
        reveal_strlit("\n\n");
        assert("\n\n"@ =~= blank_line());
    }
    let mut r = pin.d.clone();
    r.append("\n\n");
    r.append(pin.u.as_str());
    let ghost after_url = r@;
    match &pin.n {
        Some(n) => {
            if !n.as_str().is_empty() {
                r.append("\n\n");
                r.append(n.as_str());
            }
        },
        None => {},
    }
    let ghost after_note = r@;
    if pin.t.len() > 0 {
        r.append("\n\n");
        let j = join_comma_space(&pin.t);
        r.append(j.as_str());
        proof {
            assert(r@ =~= after_note + (blank_line() + join(pin@.tags, comma_space())));
        }
    }
    proof {
        assert(r@ =~= message_text(pin@));
    }
    r
}

/// The message sent for `pin`: its body with leading and trailing white
/// space trimmed.
pub fn format_message(pin: &Pin) -> (r: String)
    ensures
        r@ == trimmed(message_text(pin@)),
{
    let body = message_body(pin);
    trim_text(body.as_str())
}

} // verus!
