# recorrelaberintos

Solves mazes drawn as images. A maze image is read into a graph whose nodes
are the corners, junctions and dead ends of its corridors (plus the openings
of the top row, the entrance, and of the bottom row, the exit); a search
then looks for a route from the entrance to the exit.

The library (`src/`) states its behaviour in contracts and proves them:

- `pos`, `graph`: positions and the maze graph, with its invariant (the
  entrance is a node, every listed neighbour is a node in the same row or
  column, no node lists itself).
- `maze`: `read_png_graph` decodes the bytes of a PNG file (with `image`)
  and reads the first channel of its pixels; `read_graph` turns rows of
  pixel values into the graph, with an exact description of the nodes and
  links it builds; `try_read_graph` also says when an image cannot be read.
- `queue`: a binary heap that hands out the cheapest entry first.
- `path`: routes kept as shared `cons_list` lists, last step first.
- `routes`, `node`: routes, reachability, and the facts the searches share.
- `bfs`, `bfs2`, `pbfs2` (with `batch` and `parallel`): best-first searches,
  one node or a round of nodes at a time (the last on several threads with
  `rayon`). Each finds a route that visits no position twice exactly when
  the exit can be reached. `bfs` expands nodes by the length in pixels of
  the route that reached them, so when a single node leads into the exit
  its route is a shortest one in pixels. The contracts also say which
  route each returns: `bfs_result` for `bfs` (the first node taken out,
  cheapest first, that lists the exit), `rounds_result` for `bfs2` and
  `pbfs2` (the first child at the exit, in round order, of the first round
  that makes one).
- `pbfs`: breadth-first search level by level, which finds a shortest route
  when the exit lies within a hundred steps. `LevelSearch` runs it one
  level at a time and reports the size of each level. When a single simple route
  leads to the exit, every search gives it (`lemma_one_simple_route_agreement`).

`app/main.rs` is the command line program: it reads the PNG file, hands
its bytes to the library, and prints the number of nodes and the length of
the route found; `pbfs` also prints the size of each level and `ciao!` when
it finds the exit, and `bfs` prints `eh!` for each node it skips
(`breadth_first_search_noting_skips` counts them):

    recorrelaberintos <bfs|bfs2|pbfs|pbfs2> <maze>
