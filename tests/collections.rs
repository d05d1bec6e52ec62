use faine::{Branch, BranchVec};

#[test]
fn test_index() {
    let mut v = BranchVec::default();
    assert_eq!(v[Branch::Skip], 0);
    assert_eq!(v[Branch::Activate], 0);
    v[Branch::Skip] = 1;
    v[Branch::Activate] = 2;
    assert_eq!(v[Branch::Skip], 1);
    assert_eq!(v[Branch::Activate], 2);
}

#[test]
fn test_default() {
    let v: BranchVec<usize> = Default::default();
    assert_eq!(v[Branch::Skip], 0);
    assert_eq!(v[Branch::Activate], 0);
}

#[test]
fn branch_vec_accessors() {
    let mut v = BranchVec::new(3, 4);
    v.set(Branch::Skip, 5);
    *v.get_mut(Branch::Activate) += 1;
    assert_eq!(*v.get(Branch::Skip), 5);
    assert_eq!(*v.get(Branch::Activate), 5);
}

#[test]
fn branch_vec_new_keeps_each_value_apart() {
    let v = BranchVec::new("skip", "activate");
    assert_eq!(*v.get(Branch::Skip), "skip");
    assert_eq!(*v.get(Branch::Activate), "activate");
}

#[test]
fn other_branch_flips() {
    assert_eq!(Branch::Skip.other(), Branch::Activate);
    assert_eq!(Branch::Activate.other(), Branch::Skip);
}
