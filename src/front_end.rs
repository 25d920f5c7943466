use vstd::prelude::*;
use vstd::string::*;

verus! {

/// A compiler argument that affects parsing: a define (`-D...`) or an include path (`-I...`).
pub open spec fn is_forwarded_flag(a: Seq<char>) -> bool {
    a.len() >= 2 && a[0] == '-' && (a[1] == 'D' || a[1] == 'I')
}

/// The arguments of `args` that are forwarded to the parser, in order.
pub open spec fn forwarded(args: Seq<String>) -> Seq<String>
    decreases args.len(),
{
    if args.len() == 0 {
        Seq::empty()
    } else {
        forwarded(args.drop_last()) + if is_forwarded_flag(args.last()@) {
            seq![args.last()]
        } else {
            Seq::empty()
        }
    }
}

fn forwarded_flag(a: &String) -> (r: bool)
    ensures
        r == is_forwarded_flag(a@),
{
    let s = a.as_str();
    if s.unicode_len() < 2 {
        return false;
    }
    let c0 = s.get_char(0);
    let c1 = s.get_char(1);
    c0 == '-' && (c1 == 'D' || c1 == 'I')
}

/// Keeps only the `-D` and `-I` flags, the ones that affect parsing.
pub fn extract_clang_compatible_flags(args: &[String]) -> (r: Vec<String>)
    ensures
        r@ == forwarded(args@),
{
    let mut r: Vec<String> = Vec::new();
    let mut i: usize = 0;
    while i < args.len()
        invariant
            i <= args@.len(),
            r@ == forwarded(args@.subrange(0, i as int)),
        decreases args@.len() - i,
    {
        proof {
            assert(args@.subrange(0, i + 1).drop_last() =~= args@.subrange(0, i as int));
        }
        if forwarded_flag(&args[i]) {
            r.push(args[i].clone());
        } else {
            assert(r@ =~= r@ + Seq::<String>::empty());
        }
        i = i + 1;
    }
    assert(args@.subrange(0, i as int) =~= args@);
    r
}

/// The parser arguments for one compile command `command` (compiler first):
/// its forwarded flags, then the flags that lift the error limit and silence warnings.
pub fn parser_arguments(command: &[String]) -> (r: Vec<String>)
    ensures
        command@.len() == 0 ==> r@.len() == 2,
        command@.len() > 0 ==> r@.subrange(0, r@.len() - 2) == forwarded(command@.drop_first()),
        r@.len() >= 2,
        r@[r@.len() - 2]@ == "-ferror-limit=0"@,
        r@[r@.len() - 1]@ == "-Wno-everything"@,
{
    let mut r: Vec<String> = Vec::new();
    if command.len() > 0 {
        let mut i: usize = 1;
        while i < command.len()
            invariant
                1 <= i <= command@.len(),
                r@ == forwarded(command@.subrange(1, i as int)),
            decreases command@.len() - i,
        {
            proof {
                assert(command@.subrange(1, i + 1).drop_last() =~= command@.subrange(1, i as int));
            }
            if forwarded_flag(&command[i]) {
                r.push(command[i].clone());
            } else {
                assert(r@ =~= r@ + Seq::<String>::empty());
            }
            i = i + 1;
        }
        assert(command@.subrange(1, i as int) =~= command@.drop_first());
    }
    let ghost flags = r@;
    r.push("-ferror-limit=0".to_string());
    r.push("-Wno-everything".to_string());
    assert(r@.subrange(0, r@.len() - 2) =~= flags);
    r
}

/// The tokens written one after the other with single spaces between them.
pub open spec fn joined(tokens: Seq<String>) -> Seq<char>
    decreases tokens.len(),
{
    if tokens.len() == 0 {
        Seq::empty()
    } else if tokens.len() == 1 {
        tokens[0]@
    } else {
        joined(tokens.drop_last()) + " "@ + tokens.last()@
    }
}

/// A function body rebuilt from the spellings of its tokens.
pub fn join_tokens(tokens: &Vec<String>) -> (r: String)
    ensures
        r@ == joined(tokens@),
{
    let mut r = String::new();
    let mut i: usize = 0;
    while i < tokens.len()
        invariant
            i <= tokens@.len(),
            r@ == joined(tokens@.subrange(0, i as int)),
        decreases tokens@.len() - i,
    {
        proof {
            assert(tokens@.subrange(0, i + 1).drop_last() =~= tokens@.subrange(0, i as int));
        }
        if i > 0 {
            r.append(" ");
        } else {
            assert(r@ =~= Seq::<char>::empty());
        }
        r.append(tokens[i].as_str());
        assert(i == 0 ==> r@ =~= tokens@.subrange(0, 1)[0]@);
        i = i + 1;
    }
    assert(tokens@.subrange(0, i as int) =~= tokens@);
    r
}

} // verus!
