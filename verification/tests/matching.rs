use pegrex::nfa::NFA;
use pegrex::parse::re2post;

/// A regular expression as a tree, read from postfix form.
#[derive(Debug, Clone)]
enum Tree {
    Symbol(char),
    Concatenation(Box<Tree>, Box<Tree>),
    Alternation(Box<Tree>, Box<Tree>),
    Optional(Box<Tree>),
    Star(Box<Tree>),
    Plus(Box<Tree>),
}

fn tree(postfix: &str) -> Option<Tree> {
    let mut stack: Vec<Tree> = Vec::new();
    for c in postfix.chars() {
        match c {
            '.' | '|' => {
                let right = stack.pop()?;
                let left = stack.pop()?;
                stack.push(if c == '.' {
                    Tree::Concatenation(Box::new(left), Box::new(right))
                } else {
                    Tree::Alternation(Box::new(left), Box::new(right))
                });
            }
            '?' | '*' | '+' => {
                let operand = Box::new(stack.pop()?);
                stack.push(match c {
                    '?' => Tree::Optional(operand),
                    '*' => Tree::Star(operand),
                    _ => Tree::Plus(operand),
                });
            }
            _ => stack.push(Tree::Symbol(c)),
        }
    }
    if stack.len() == 1 {
        stack.pop()
    } else {
        None
    }
}

/// The lengths `n` such that the tree matches `input[from..from + n]`.
fn lengths(t: &Tree, input: &[char], from: usize) -> Vec<usize> {
    let mut found: Vec<usize> = Vec::new();
    let mut add = |n: usize, found: &mut Vec<usize>| {
        if !found.contains(&n) {
            found.push(n);
        }
    };
    match t {
        Tree::Symbol(c) => {
            if from < input.len() && input[from] == *c {
                add(1, &mut found);
            }
        }
        Tree::Concatenation(a, b) => {
            for n in lengths(a, input, from) {
                for m in lengths(b, input, from + n) {
                    add(n + m, &mut found);
                }
            }
        }
        Tree::Alternation(a, b) => {
            for n in lengths(a, input, from) {
                add(n, &mut found);
            }
            for n in lengths(b, input, from) {
                add(n, &mut found);
            }
        }
        Tree::Optional(a) => {
            add(0, &mut found);
            for n in lengths(a, input, from) {
                add(n, &mut found);
            }
        }
        Tree::Star(a) | Tree::Plus(a) => {
            if let Tree::Star(_) = t {
                add(0, &mut found);
            }
            // lengths reached by one or more pieces; a piece of length 0
            // adds nothing new
            let mut reached: Vec<usize> = lengths(a, input, from);
            let mut next = 0;
            while next < reached.len() {
                let n = reached[next];
                next += 1;
                for m in lengths(a, input, from + n) {
                    if !reached.contains(&(n + m)) {
                        reached.push(n + m);
                    }
                }
            }
            for n in reached {
                add(n, &mut found);
            }
        }
    }
    found
}

fn matches(t: &Tree, input: &str) -> bool {
    let symbols: Vec<char> = input.chars().collect();
    lengths(t, &symbols, 0).contains(&symbols.len())
}

fn inputs(alphabet: &[char], longest: usize) -> Vec<String> {
    let mut all = vec![String::new()];
    let mut last = vec![String::new()];
    for _ in 0..longest {
        let mut next = Vec::new();
        for s in &last {
            for &c in alphabet {
                let mut longer = s.clone();
                longer.push(c);
                next.push(longer);
            }
        }
        all.extend(next.iter().cloned());
        last = next;
    }
    all
}

const EXPRESSIONS: [&str; 24] = [
    "a",
    "ab",
    "a|b",
    "a?",
    "a*",
    "a+",
    "abc|d?e",
    "a*b*",
    "a+b+",
    "a?b?c?",
    "ab|ba",
    "a|b|c",
    "aa*|b",
    "a**",
    "a+*",
    "a?*",
    "a*?",
    "a?+b",
    "ab*a|b+a?",
    "a|*b",
    "ab|?c",
    "a*a",
    "aa?a?aa",
    "b*ab*ab*",
];

#[test]
fn the_automaton_agrees_with_the_expression() {
    let every = inputs(&['a', 'b', 'c'], 5);
    for infix in EXPRESSIONS {
        let post = re2post(&infix.to_string()).unwrap();
        let t = tree(&post).unwrap();
        let mut n = NFA::compile(post.clone()).unwrap();
        for input in &every {
            assert_eq!(
                n.run_string(input),
                matches(&t, input),
                "expression {:?}, postfix {:?}, input {:?}",
                infix,
                post,
                input
            );
        }
    }
}

#[test]
fn postfix_expressions_agree_too() {
    let every = inputs(&['a', 'b'], 6);
    for post in ["ab|*", "ab.*a.", "a?b?.+", "ab|ab|.", "aa.*b|?", "ab+|a."] {
        let t = tree(post).unwrap();
        let mut n = NFA::compile(post.to_string()).unwrap();
        for input in &every {
            assert_eq!(n.run_string(input), matches(&t, input), "{:?} on {:?}", post, input);
        }
    }
}

#[test]
fn what_has_a_postfix_form_compiles() {
    let symbols = ['a', 'b', '|', '?', '*', '+'];
    for infix in inputs(&symbols, 5) {
        match re2post(&infix) {
            Ok(post) => {
                assert!(tree(&post).is_some(), "{:?} gives {:?}", infix, post);
                assert!(NFA::compile(post.clone()).is_ok(), "{:?} gives {:?}", infix, post);
            }
            Err(_) => {}
        }
    }
}

#[test]
fn compiling_succeeds_where_the_postfix_form_is_a_tree() {
    let tokens = ['a', 'b', '.', '|', '?', '*', '+'];
    for post in inputs(&tokens, 5) {
        assert_eq!(NFA::compile(post.clone()).is_ok(), tree(&post).is_some(), "{:?}", post);
    }
}

#[test]
fn a_symbol_that_leads_nowhere_ends_the_run() {
    let mut n = NFA::compile("a*".to_string()).unwrap();
    assert!(n.run_string(&"aaa".to_string()));
    assert!(!n.run_string(&"axa".to_string()));
    assert!(!n.run_string(&"xaaa".to_string()));
    assert!(!n.run_string(&"aaax".to_string()));
    n.reset();
    n.transition('x');
    assert!(!n.is_accepted());
    n.take_unlabeled();
    assert!(!n.is_accepted());
    n.transition('a');
    n.take_unlabeled();
    assert!(!n.is_accepted());
}
