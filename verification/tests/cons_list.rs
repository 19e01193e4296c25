use sexpr_reader::list::List;

fn to_vec(mut l: List<u32>) -> Vec<u32> {
    let mut out = Vec::new();
    loop {
        let (popped, rest) = l.pop();
        match popped {
            Some(v) => out.push(v),
            None => break,
        }
        l = rest;
    }
    out
}

#[test]
fn push_prepends_and_pop_removes_front() {
    let l: List<u32> = List::new();
    let l = l.push(1).push(2).push(3);
    assert_eq!(to_vec(l), vec![3, 2, 1]);
}

#[test]
fn pop_on_empty_yields_nothing() {
    let l: List<u32> = List::new();
    let (popped, rest) = l.pop();
    assert!(popped.is_none());
    assert_eq!(to_vec(rest), Vec::<u32>::new());
}

#[test]
fn append_adds_at_the_back() {
    let l: List<u32> = List::new();
    let l = l.append(1).append(2).append(3);
    assert_eq!(to_vec(l), vec![1, 2, 3]);
}

#[test]
fn reverse_reverses() {
    let l: List<u32> = List::new();
    let l = l.append(1).append(2).append(3).reverse();
    assert_eq!(to_vec(l), vec![3, 2, 1]);
}

#[test]
fn concat_joins_in_order() {
    let a: List<u32> = List::new().append(1).append(2);
    let b: List<u32> = List::new().append(3).append(4);
    assert_eq!(to_vec(a.concat(b)), vec![1, 2, 3, 4]);
}
