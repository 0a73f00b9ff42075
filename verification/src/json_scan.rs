use vstd::prelude::*;

verus! {

pub const QUOTE: u8 = 34;
pub const BSLASH: u8 = 92;
pub const LBRACK: u8 = 91;
pub const RBRACK: u8 = 93;
pub const LBRACE: u8 = 123;
pub const RBRACE: u8 = 125;
pub const COMMA: u8 = 44;
pub const COLON: u8 = 58;
pub const SLASH: u8 = 47;

/// State of the bracket scanner that delimits one JSON object: the stack of
/// unclosed opening brackets, whether the cursor is inside a string literal,
/// and whether the previous byte was a still-pending escape backslash.
pub ghost struct ScanState {
    pub stack: Seq<u8>,
    pub in_str: bool,
    pub esc: bool,
}

pub open spec fn scan_init() -> ScanState {
    ScanState { stack: Seq::empty(), in_str: false, esc: false }
}

pub open spec fn scan_step(st: ScanState, b: u8) -> Option<ScanState> {
    if st.in_str {
        if st.esc {
            Some(ScanState { stack: st.stack, in_str: true, esc: false })
        } else if b == BSLASH {
            Some(ScanState { stack: st.stack, in_str: true, esc: true })
        } else if b == QUOTE {
            Some(ScanState { stack: st.stack, in_str: false, esc: false })
        } else {
            Some(st)
        }
    } else {
        if b == QUOTE {
            Some(ScanState { stack: st.stack, in_str: true, esc: false })
        } else if b == LBRACE || b == LBRACK {
            Some(ScanState { stack: st.stack.push(b), in_str: false, esc: false })
        } else if b == RBRACE {
            if st.stack.len() > 0 && st.stack.last() == LBRACE {
                Some(ScanState { stack: st.stack.drop_last(), in_str: false, esc: false })
            } else {
                None
            }
        } else if b == RBRACK {
            if st.stack.len() > 0 && st.stack.last() == LBRACK {
                Some(ScanState { stack: st.stack.drop_last(), in_str: false, esc: false })
            } else {
                None
            }
        } else {
            Some(st)
        }
    }
}

pub open spec fn scan_done(st: ScanState) -> bool {
    st.stack.len() == 0 && !st.in_str
}

/// One past the end of the bracketed region that begins at `i` in state `st`,
/// if the region closes with every bracket matched; `None` on a mismatch or
/// when the input ends first.
pub open spec fn scan_from(s: Seq<u8>, i: int, st: ScanState) -> Option<int>
    decreases s.len() - i,
{
    if i < 0 || i >= s.len() {
        None
    } else {
        match scan_step(st, s[i]) {
            None => None,
            Some(st2) => if scan_done(st2) {
                Some(i + 1)
            } else {
                scan_from(s, i + 1, st2)
            },
        }
    }
}

/// A well-formed property table: one JSON object, delimited by the scanner
/// over its whole length.
pub open spec fn wf_props_text(p: Seq<u8>) -> bool {
    &&& p.len() >= 2
    &&& p[0] == LBRACE
    &&& scan_from(p, 0, scan_init()) == Some(p.len() as int)
}

pub proof fn lemma_scan_bounds(s: Seq<u8>, i: int, st: ScanState, e: int)
    requires
        scan_from(s, i, st) == Some(e),
    ensures
        i < e <= s.len(),
    decreases s.len() - i,
{
    let st2 = scan_step(st, s[i])->Some_0;
    if !scan_done(st2) {
        lemma_scan_bounds(s, i + 1, st2, e);
    }
}

/// The scanner reads only the bytes of the region it delimits: the same
/// bytes placed at any position of any other sequence scan the same way.
pub proof fn lemma_scan_window(s: Seq<u8>, i: int, t: Seq<u8>, k: int, st: ScanState, e: int)
    requires
        scan_from(s, i, st) == Some(e),
        0 <= i,
        0 <= k,
        k + (e - i) <= t.len(),
        t.subrange(k, k + (e - i)) == s.subrange(i, e),
    ensures
        scan_from(t, k, st) == Some(k + (e - i)),
    decreases s.len() - i,
{
    lemma_scan_bounds(s, i, st, e);
    assert(t[k] == t.subrange(k, k + (e - i))[0]);
    assert(s[i] == s.subrange(i, e)[0]);
    assert(t[k] == s[i]);
    let st2 = scan_step(st, s[i])->Some_0;
    if scan_done(st2) {
        assert(e == i + 1);
    } else {
        assert(t.subrange(k + 1, k + (e - i)) =~= s.subrange(i + 1, e)) by {
            assert forall|m: int| 0 <= m < e - i - 1 implies
                #[trigger] t.subrange(k + 1, k + (e - i))[m] == s.subrange(i + 1, e)[m] by {
                assert(t.subrange(k + 1, k + (e - i))[m] == t[k + 1 + m]);
                assert(t[k + 1 + m] == t.subrange(k, k + (e - i))[m + 1]);
                assert(s.subrange(i + 1, e)[m] == s[i + 1 + m]);
                assert(s[i + 1 + m] == s.subrange(i, e)[m + 1]);
            }
        }
        lemma_scan_window(s, i + 1, t, k + 1, st2, e);
    }
}

/// Scans one bracketed JSON region of `s` beginning at `start`; the
/// executable mirror of `scan_from` in the initial state.
pub fn scan_object(s: &[u8], start: usize) -> (r: Option<usize>)
    ensures
        match r {
            Some(j) => scan_from(s@, start as int, scan_init()) == Some(j as int)
                && start < j <= s@.len(),
            None => scan_from(s@, start as int, scan_init()) is None,
        },
{
    let mut stack: Vec<u8> = Vec::new();
    let mut in_str: bool = false;
    let mut esc: bool = false;
    let mut i: usize = start;
    loop
        invariant
            start <= i,
            !in_str ==> !esc,
            scan_from(s@, start as int, scan_init())
                == scan_from(s@, i as int, ScanState { stack: stack@, in_str, esc }),
        decreases s@.len() - i,
    {
        if i >= s.len() {
            return None;
        }
        let b = s[i];
        let ghost st = ScanState { stack: stack@, in_str, esc };
        if in_str {
            if esc {
                esc = false;
            } else if b == BSLASH {
                esc = true;
            } else if b == QUOTE {
                in_str = false;
            }
        } else {
            if b == QUOTE {
                in_str = true;
            } else if b == LBRACE || b == LBRACK {
                stack.push(b);
            } else if b == RBRACE || b == RBRACK {
                let want: u8 = if b == RBRACE { LBRACE } else { LBRACK };
                if stack.len() == 0 {
                    return None;
                }
                let top = stack[stack.len() - 1];
                if top != want {
                    return None;
                }
                stack.pop();
                proof {
                    assert(stack@ =~= st.stack.drop_last());
                }
            }
        }
        proof {
            assert(scan_step(st, b) == Some(ScanState { stack: stack@, in_str, esc }));
        }
        if stack.len() == 0 && !in_str {
            return Some(i + 1);
        }
        i = i + 1;
    }
}

/// True exactly when `p` is a well-formed property table.
pub fn is_valid_props(p: &[u8]) -> (r: bool)
    ensures
        r == wf_props_text(p@),
{
    if p.len() < 2 {
        return false;
    }
    if p[0] != LBRACE {
        return false;
    }
    match scan_object(p, 0) {
        Some(e) => e == p.len(),
        None => false,
    }
}

} // verus!
