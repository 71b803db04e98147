use vstd::prelude::*;

verus! {

/// The suffix that song data files carry after the song's name.
pub open spec fn data_suffix() -> Seq<char> {
    seq!['_', 'd', 'a', 't', 'a']
}

/// `s` ends with `_data`.
pub open spec fn ends_with_data(s: Seq<char>) -> bool {
    s.len() >= 5 && s.subrange(s.len() - 5, s.len() as int) == data_suffix()
}

/// `s` with every trailing `_data` removed.
pub open spec fn strip_data(s: Seq<char>) -> Seq<char>
    decreases s.len(),
{
    if ends_with_data(s) {
        strip_data(s.subrange(0, s.len() - 5))
    } else {
        s
    }
}

/// The song name for an output file stem: the stem with every trailing `_data`
/// removed (`"intro_data"` names the song `"intro"`).
pub fn song_name(stem: &str) -> (name: String)
    ensures
        name@ == strip_data(stem@),
        name_layout(stem@, name@),
{
    proof {
        law_song_name_chars(stem@);
    }
    let ghost full = stem@;
    let mut n: usize = stem.unicode_len();
    assert(full.subrange(0, n as int) =~= full);
    while n >= 5 && stem.get_char(n - 5) == '_' && stem.get_char(n - 4) == 'd' && stem.get_char(n - 3) == 'a'
        && stem.get_char(n - 2) == 't' && stem.get_char(n - 1) == 'a'
        invariant
            full == stem@,
            n <= full.len(),
            strip_data(full.subrange(0, n as int)) == strip_data(full),
        decreases n,
    {
        let ghost cur = full.subrange(0, n as int);
        assert(cur.subrange(cur.len() - 5, cur.len() as int) =~= data_suffix());
        assert(cur.subrange(0, cur.len() - 5) =~= full.subrange(0, n - 5));
        n -= 5;
    }
    let ghost cur = full.subrange(0, n as int);
    proof {
        if ends_with_data(cur) {
            assert(cur.subrange(cur.len() - 5, cur.len() as int)[0] == full[n - 5]);
            assert(cur.subrange(cur.len() - 5, cur.len() as int)[1] == full[n - 4]);
            assert(cur.subrange(cur.len() - 5, cur.len() as int)[2] == full[n - 3]);
            assert(cur.subrange(cur.len() - 5, cur.len() as int)[3] == full[n - 2]);
            assert(cur.subrange(cur.len() - 5, cur.len() as int)[4] == full[n - 1]);
        }
    }
    String::from_str(stem.substring_char(0, n))
}

/// Law: a song name never ends with `_data`, and appending `_data` some number
/// of times gives back the stem.
pub proof fn lemma_song_name(s: Seq<char>)
    ensures
        !ends_with_data(strip_data(s)),
        exists|m: nat| s == #[trigger] repeat_data(strip_data(s), m),
    decreases s.len(),
{
    if ends_with_data(s) {
        let t = s.subrange(0, s.len() - 5);
        lemma_song_name(t);
        let m = choose|m: nat| t == #[trigger] repeat_data(strip_data(t), m);
        assert(s =~= t + data_suffix());
        assert(repeat_data(strip_data(s), m + 1) == repeat_data(strip_data(s), m) + data_suffix());
    } else {
        assert(repeat_data(s, 0) == s);
    }
}

/// `r` is a prefix of `s`, what follows it in `s` is `_data` repeated, and `r`
/// itself does not end in `_data`; all stated over the characters.
pub open spec fn name_layout(s: Seq<char>, r: Seq<char>) -> bool {
    &&& r.len() <= s.len()
    &&& (s.len() - r.len()) % 5 == 0
    &&& r == s.take(r.len() as int)
    &&& forall|j: int| r.len() <= j < s.len() ==> #[trigger] s[j] == seq!['_', 'd', 'a', 't', 'a'][(j - r.len()) % 5]
    &&& !(r.len() >= 5 && r[r.len() - 5] == '_' && r[r.len() - 4] == 'd' && r[r.len() - 3] == 'a'
        && r[r.len() - 2] == 't' && r[r.len() - 1] == 'a')
}

/// Law, over the characters themselves: the song name is a prefix of the stem, what
/// follows it is `_data` repeated, and it does not itself end in `_data`.
pub proof fn law_song_name_chars(s: Seq<char>)
    ensures
        name_layout(s, strip_data(s)),
    decreases s.len(),
{
    if ends_with_data(s) {
        let t = s.subrange(0, s.len() - 5);
        law_song_name_chars(t);
        let r = strip_data(t);
        assert(strip_data(s) == r);
        assert(name_layout(t, r));
        assert(r =~= s.take(r.len() as int)) by {
            assert(r =~= t.take(r.len() as int));
        }
        assert forall|j: int| r.len() <= j < s.len() implies
            #[trigger] s[j] == seq!['_', 'd', 'a', 't', 'a'][(j - r.len()) % 5] by {
            if j < t.len() {
                assert(s[j] == t[j]);
            } else {
                let x = j - t.len();
                let d = t.len() - r.len();
                assert((x + d) % 5 == x) by (nonlinear_arith)
                    requires 0 <= x < 5, d >= 0, d % 5 == 0;
                assert(s.subrange(s.len() - 5, s.len() as int)[x] == s[j]);
            }
        }
        assert((s.len() - r.len()) % 5 == 0) by (nonlinear_arith)
            requires (t.len() - r.len()) % 5 == 0, s.len() == t.len() + 5;
    } else {
        let r = strip_data(s);
        assert(r == s);
        assert(r =~= s.take(r.len() as int));
        if r.len() >= 5 && r[r.len() - 5] == '_' && r[r.len() - 4] == 'd' && r[r.len() - 3] == 'a'
            && r[r.len() - 2] == 't' && r[r.len() - 1] == 'a' {
            assert(r.subrange(r.len() - 5, r.len() as int) =~= data_suffix());
        }
    }
}

/// `s` followed by `m` copies of `_data`.
pub open spec fn repeat_data(s: Seq<char>, m: nat) -> Seq<char>
    decreases m,
{
    if m == 0 {
        s
    } else {
        repeat_data(s, (m - 1) as nat) + data_suffix()
    }
}

/// The game's source files, in the order in which they are joined into one program.
pub fn game_sources() -> (files: Vec<&'static str>)
    ensures
        files@.len() == 6,
        files@[0]@ == "color.ling"@,
        files@[1]@ == "shape.ling"@,
        files@[2]@ == "audio.ling"@,
        files@[3]@ == "title.ling"@,
        files@[4]@ == "play.ling"@,
        files@[5]@ == "main.ling"@,
{
    let mut files: Vec<&'static str> = Vec::new();
    files.push("color.ling");
    files.push("shape.ling");
    files.push("audio.ling");
    files.push("title.ling");
    files.push("play.ling");
    files.push("main.ling");
    files
}

/// The parts, each followed by a newline, one after the other.
pub open spec fn joined(parts: Seq<Seq<char>>) -> Seq<char>
    decreases parts.len(),
{
    if parts.len() == 0 {
        Seq::empty()
    } else {
        joined(parts.drop_last()) + parts.last() + seq!['\n']
    }
}

/// The length of the parts joined: each part's length plus one for its newline.
pub open spec fn joined_len(parts: Seq<Seq<char>>) -> int {
    parts.fold_left(0int, |acc: int, p: Seq<char>| acc + p.len() + 1)
}

/// The texts of the game's source files.
pub open spec fn source_views(parts: Seq<String>) -> Seq<Seq<char>> {
    parts.map_values(|p: String| p@)
}

/// `program` holds part `i` of `parts` right after the parts before it and a
/// newline after each of them, and a newline right after part `i`.
pub open spec fn holds_part(program: Seq<char>, parts: Seq<Seq<char>>, i: int) -> bool {
    &&& 0 <= joined_len(parts.take(i))
    &&& joined_len(parts.take(i)) + parts[i].len() < program.len()
    &&& program.subrange(joined_len(parts.take(i)), joined_len(parts.take(i)) + parts[i].len()) == parts[i]
    &&& program[joined_len(parts.take(i)) + parts[i].len()] == '\n'
}

/// The joined parts are as long as `joined_len` says.
proof fn lemma_joined_len(parts: Seq<Seq<char>>)
    ensures
        joined(parts).len() == joined_len(parts),
    decreases parts.len(),
{
    if parts.len() > 0 {
        lemma_joined_len(parts.drop_last());
    }
}

/// Part `i` of the joined parts, and the newline after it.
proof fn lemma_joined_part(parts: Seq<Seq<char>>, i: int)
    requires
        0 <= i < parts.len(),
    ensures
        holds_part(joined(parts), parts, i),
    decreases parts.len(),
{
    let init = parts.drop_last();
    let j = joined(parts);
    lemma_joined_len(init);
    lemma_joined_len(parts.take(i));
    assert(j == joined(init) + parts.last() + seq!['\n']);
    if i < parts.len() - 1 {
        lemma_joined_part(init, i);
        assert(holds_part(joined(init), init, i));
        assert(parts.take(i) =~= init.take(i));
        assert(init[i] == parts[i]);
        let off = joined_len(init.take(i));
        assert(j.subrange(off, off + parts[i].len()) =~= joined(init).subrange(off, off + parts[i].len()));
        assert(j[off + parts[i].len()] == joined(init)[off + parts[i].len()]);
    } else {
        assert(parts.take(i) =~= init);
        assert(j.subrange(joined(init).len() as int, (joined(init).len() + parts[i].len()) as int) =~= parts[i]);
    }
}

/// Law: the joined program holds every part, in order, each followed by a newline:
/// its length is the sum of the parts' lengths plus one each, and part `i` starts
/// right after the parts before it and their newlines.
pub proof fn law_joined_layout(parts: Seq<Seq<char>>)
    ensures
        joined(parts).len() == joined_len(parts),
        forall|i: int| 0 <= i < parts.len() ==> #[trigger] holds_part(joined(parts), parts, i),
{
    lemma_joined_len(parts);
    assert forall|i: int| 0 <= i < parts.len() implies #[trigger] holds_part(joined(parts), parts, i) by {
        lemma_joined_part(parts, i);
    }
}

/// Joins the game's source files into one program: each file's text followed by a newline.
pub fn join_sources(parts: &Vec<String>) -> (program: String)
    ensures
        program@ == joined(source_views(parts@)),
        program@.len() == joined_len(source_views(parts@)),
        forall|i: int| 0 <= i < parts@.len() ==> #[trigger] holds_part(program@, source_views(parts@), i),
{
    let ghost views = source_views(parts@);
    let mut program = String::new();
    let mut i: usize = 0;
    proof {
        reveal_strlit("\n");
    }
    while i < parts.len()
        invariant
            views == source_views(parts@),
            i <= parts@.len(),
            "\n"@ == seq!['\n'],
            program@ == joined(views.subrange(0, i as int)),
        decreases parts@.len() - i,
    {
        program.append(parts[i].as_str());
        program.append("\n");
        assert(views.subrange(0, i + 1).drop_last() =~= views.subrange(0, i as int));
        i += 1;
    }
    assert(views.subrange(0, i as int) =~= views);
    proof {
        law_joined_layout(views);
    }
    program
}

/// The position of a letter in the alphabet: 0 for 'a' up to 25 for 'z'.
pub fn glyph_index(ch: char) -> (idx: usize)
    requires
        'a' <= ch <= 'z',
    ensures
        idx as int == ch as int - 'a' as int,
        idx < 26,
{
    (ch as u32 - 'a' as u32) as usize
}

} // verus!
