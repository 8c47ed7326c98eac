use exprkit::tree::Tree;

#[test]
fn lib_testcase1() {
    let mut x: Tree<i32> = Tree::new();
    x.insert(4);
    x.insert(2);
    x.insert(5);
    x.insert(1);
    x.insert(3);
    x.insert(6);
    x.insert(4);
    assert_eq!(x, Tree { 
        key: Some(4),
        left: Some(Box::new(Tree {
            key: Some(2),
            left: Some(Box::new(Tree {key: Some(1), left: None, right: None,})),
            right: Some(Box::new( Tree { key: Some(3), left: None, right: None })),
        })),
        right: Some(Box::new(Tree {
            key: Some(5),
            left: None,
            right: Some(Box::new( Tree { key: Some(6), left: None, right: None })),
        })),
    });
    // should be false
    //x.insert(4);

}
#[test]
fn testc2() {
let mut x: Tree<i32> = Tree::new();
    x.insert(4);
x.insert(2);
    x.insert(5);
x.insert(1);
    x.insert(3);
   x.insert(6);
    x.insert(4);
   let y = x.find(&7);
    assert_eq!(y, false);
}
 #[test]
fn testc4() {
let mut x: Tree<i32> = Tree::new();
    x.insert(4);
x.insert(2);
    x.insert(5);
x.insert(1);
    x.insert(3);
   x.insert(6);
    let y = x.insert(4);
    assert_eq!(y, false);
}
#[test]
fn testc3() {
    let mut x: Tree<i32> = Tree::new();
    x.insert(4);
    x.insert(2);
    x.insert(5);
    x.insert(1);
    x.insert(3);
    x.insert(6);
    let pre = x.preorder();
    let a = 4; 
    let b = 2;
    let c= 1;
    let d= 3;
    let e=  5;
    let f= 6;
       let mut order: Vec<&i32> = vec![&a,&b,&c,&d,&e,&f];
    assert_eq!(pre, order);
} 
#[test]
fn testc9() {
    let mut x: Tree<i32> = Tree::new();
    x.insert(4);
    x.insert(2);
    x.insert(5);
    x.insert(1);
    x.insert(3);
    x.insert(6);
    let pre = x.inorder();
    let a = 1; 
    let b = 2;
    let c= 3;
    let d= 4;
    let e=  5;
    let f= 6;
       let mut order: Vec<&i32> = vec![&a,&b,&c,&d,&e,&f];
    assert_eq!(pre, order);
} 
#[test]
fn testc10() {
    let mut x: Tree<i32> = Tree::new();
    x.insert(4);
    x.insert(2);
    x.insert(5);
    x.insert(1);
    x.insert(3);
    x.insert(6);
    let pre = x.postorder();
    let a = 1; 
    let b = 3;
    let c= 2;
    let d= 6;
    let e=  5;
    let f= 4;
       let mut order: Vec<&i32> = vec![&a,&b,&c,&d,&e,&f];
    assert_eq!(pre, order);
} 
